//! Capabilities: signed bearer tokens over `bmdb://` scopes.
//!
//! The signed bytes are the JSON of scope, perms, expiry, nonce, issuer and subject, in
//! that order.

use crate::hash;
use crate::hexes;
use crate::json;
use crate::json::{Json, Member, MemberV};
use crate::node::ident;
use crate::node::ident::{Keypair, PublicKey};
use crate::segments;
use crate::storage::record::{push_bytes, read_32};
use crate::text;
use crate::util;
use vstd::prelude::*;

verus! {

/// The tiers of the authorization ladder: host root, delegated, user sandbox.
#[derive(Debug, Clone, Copy, PartialEq, Eq, Structural, PartialOrd, Ord, Hash)]
pub enum Tier {
    L1,
    L2,
    L3,
}

/// The text of a tier.
pub open spec fn tier_text(t: Tier) -> Seq<char> {
    match t {
        Tier::L1 => "l1"@,
        Tier::L2 => "l2"@,
        Tier::L3 => "l3"@,
    }
}

/// The tier of a text.
pub open spec fn tier_of(s: Seq<char>) -> Option<Tier> {
    if s == "l1"@ {
        Some(Tier::L1)
    } else if s == "l2"@ {
        Some(Tier::L2)
    } else if s == "l3"@ {
        Some(Tier::L3)
    } else {
        None
    }
}

impl Tier {
    pub fn as_str(&self) -> (r: &'static str)
        ensures
            r@ == tier_text(*self),
    {
        match self {
            Tier::L1 => "l1",
            Tier::L2 => "l2",
            Tier::L3 => "l3",
        }
    }

    pub fn parse(s: &str) -> (r: Option<Tier>)
        ensures
            r == tier_of(s@),
    {
        if text::same_text(s, "l1") {
            Some(Tier::L1)
        } else if text::same_text(s, "l2") {
            Some(Tier::L2)
        } else if text::same_text(s, "l3") {
            Some(Tier::L3)
        } else {
            None
        }
    }
}

/// A set of permissions, one bit for each.
#[derive(Debug, Clone, Copy, PartialEq, Eq, Structural, Hash, PartialOrd, Ord)]
pub struct PermSet(pub u8);

/// Has the set every permission of the other one?
pub open spec fn allows(have: u8, want: u8) -> bool {
    have & want == want
}

/// The names of the permissions in a set, in their order.
pub open spec fn perm_names(p: u8) -> Seq<Seq<char>> {
    (if allows(p, 1) {
        seq!["read"@]
    } else {
        Seq::empty()
    }) + (if allows(p, 2) {
        seq!["write"@]
    } else {
        Seq::empty()
    }) + (if allows(p, 4) {
        seq!["admin"@]
    } else {
        Seq::empty()
    })
}

/// The bit of a permission's name.
pub open spec fn perm_bit(s: Seq<char>) -> Option<u8> {
    if s == "read"@ {
        Some(1)
    } else if s == "write"@ {
        Some(2)
    } else if s == "admin"@ {
        Some(4)
    } else {
        None
    }
}

/// The set that names write, or what is wrong with the first bad one.
pub open spec fn perms_of(names: Seq<Seq<char>>) -> Result<u8, Seq<char>>
    decreases names.len(),
{
    if names.len() == 0 {
        Ok(0)
    } else {
        match perms_of(names.drop_last()) {
            Err(e) => Err(e),
            Ok(p) => match perm_bit(names.last()) {
                Some(b) => Ok(p | b),
                None => Err("unknown perm "@ + text::debug_text(names.last())),
            },
        }
    }
}

impl PermSet {
    pub fn read() -> (r: PermSet)
        ensures
            r.0 == 1,
    {
        PermSet(1)
    }

    pub fn write() -> (r: PermSet)
        ensures
            r.0 == 2,
    {
        PermSet(2)
    }

    pub fn admin() -> (r: PermSet)
        ensures
            r.0 == 4,
    {
        PermSet(4)
    }

    /// Has the set every permission of the other one?
    pub fn contains(&self, other: PermSet) -> (r: bool)
        ensures
            r == allows(self.0, other.0),
    {
        self.0 & other.0 == other.0
    }

    pub fn union(&self, other: PermSet) -> (r: PermSet)
        ensures
            r.0 == self.0 | other.0,
    {
        PermSet(self.0 | other.0)
    }

    /// The names of the permissions.
    pub fn names(&self) -> (v: Vec<String>)
        ensures
            json::texts(v@) == perm_names(self.0),
    {
        let mut v: Vec<String> = Vec::new();
        if self.contains(PermSet::read()) {
            v.push(text::copy_text("read"));
        }
        if self.contains(PermSet::write()) {
            v.push(text::copy_text("write"));
        }
        if self.contains(PermSet::admin()) {
            v.push(text::copy_text("admin"));
        }
        assert(json::texts(v@) =~= perm_names(self.0));
        v
    }

    /// The set that names write.
    pub fn parse_list(list: &Vec<String>) -> (r: Result<PermSet, String>)
        ensures
            match perms_of(json::texts(list@)) {
                Ok(p) => r matches Ok(s) && s.0 == p,
                Err(f) => r matches Err(e) && e@ == f,
            },
    {
        let ghost all = json::texts(list@);
        let mut p: u8 = 0;
        let mut i: usize = 0;
        while i < list.len()
            invariant
                i <= list@.len(),
                all == json::texts(list@),
                perms_of(all.take(i as int)) == Ok::<u8, Seq<char>>(p),
            decreases list@.len() - i,
        {
            let ghost t = all.take(i + 1);
            proof {
                assert(t.drop_last() =~= all.take(i as int));
                assert(t.last() == list@[i as int]@);
            }
            let s = list[i].as_str();
            let bit: u8 = if text::same_text(s, "read") {
                1
            } else if text::same_text(s, "write") {
                2
            } else if text::same_text(s, "admin") {
                4
            } else {
                let e = text::join2("unknown perm ", text::debug_string(s).as_str());
                proof {
                    lemma_perms_fail(all, i + 1);
                }
                return Err(e);
            };
            p = p | bit;
            i += 1;
        }
        assert(all.take(i as int) =~= all);
        Ok(PermSet(p))
    }
}

proof fn lemma_perms_fail(names: Seq<Seq<char>>, n: int)
    requires
        0 <= n <= names.len(),
        perms_of(names.take(n)) is Err,
    ensures
        perms_of(names) == perms_of(names.take(n)),
    decreases names.len(),
{
    if n == names.len() {
        assert(names.take(n) =~= names);
    } else {
        assert(names.drop_last().take(n) =~= names.take(n));
        lemma_perms_fail(names.drop_last(), n);
    }
}

/// Reading the names of a set gives the set back.
pub proof fn law_perm_names_round_trip(p: u8)
    requires
        p <= 7,
    ensures
        perms_of(perm_names(p)) == Ok::<u8, Seq<char>>(p),
{
    reveal_strlit("read");
    reveal_strlit("write");
    reveal_strlit("admin");
    assert("read"@.len() == 4 && "write"@.len() == 5 && "admin"@.len() == 5);
    assert("write"@[0] == 'w' && "admin"@[0] == 'a');
    let r: u8 = if p & 1 == 1 { 1 } else { 0 };
    let w: u8 = if p & 2 == 2 { 2 } else { 0 };
    let a: u8 = if p & 4 == 4 { 4 } else { 0 };
    assert((0u8 | r) | w | a == p) by (bit_vector)
        requires
            p <= 7,
            r == (if p & 1 == 1 { 1u8 } else { 0u8 }),
            w == (if p & 2 == 2 { 2u8 } else { 0u8 }),
            a == (if p & 4 == 4 { 4u8 } else { 0u8 }),
    ;
    assert(forall|x: u8| #[trigger] (x | 0u8) == x) by (bit_vector);
    let n0 = Seq::<Seq<char>>::empty();
    let n1 = if p & 1 == 1 { n0.push("read"@) } else { n0 };
    let n2 = if p & 2 == 2 { n1.push("write"@) } else { n1 };
    let n3 = if p & 4 == 4 { n2.push("admin"@) } else { n2 };
    assert(perm_names(p) =~= n3);
    assert(n0.push("read"@).drop_last() =~= n0);
    assert(n1.push("write"@).drop_last() =~= n1);
    assert(n2.push("admin"@).drop_last() =~= n2);
    assert(perms_of(n0) == Ok::<u8, Seq<char>>(0));
    assert(perms_of(n1) == Ok::<u8, Seq<char>>(0u8 | r));
    assert(perms_of(n2) == Ok::<u8, Seq<char>>(0u8 | r | w));
    assert(perms_of(n3) == Ok::<u8, Seq<char>>(0u8 | r | w | a));
}

/// `bmdb://<host>/<tier>/<ns>[/prefix]`.
#[derive(Debug, PartialEq, Eq, Hash, PartialOrd, Ord)]
pub struct Scope {
    pub host: String,
    pub tier: Tier,
    pub ns: String,
    pub prefix: Option<String>,
}

/// A scope as a value of the model.
#[verifier::ext_equal]
pub struct ScopeV {
    pub host: Seq<char>,
    pub tier: Tier,
    pub ns: Seq<char>,
    pub prefix: Option<Seq<char>>,
}

impl View for Scope {
    type V = ScopeV;

    open spec fn view(&self) -> ScopeV {
        ScopeV {
            host: self.host@,
            tier: self.tier,
            ns: self.ns@,
            prefix: match self.prefix {
                Some(p) => Some(p@),
                None => None,
            },
        }
    }
}

impl Clone for Scope {
    fn clone(&self) -> (r: Scope)
        ensures
            r@ == self@,
    {
        Scope {
            host: self.host.clone(),
            tier: self.tier,
            ns: self.ns.clone(),
            prefix: match &self.prefix {
                Some(p) => Some(p.clone()),
                None => None,
            },
        }
    }
}

/// The prefix bounds the other by whole segments: they are the same, or the other goes
/// on behind it at a slash.
pub open spec fn prefix_covers(a: Seq<char>, b: Seq<char>) -> bool {
    a == b || a.len() == 0 || (segments::starts(b, a) && (a.last() == '/' || b[a.len() as int] == '/'))
}

impl ScopeV {
    /// The URL of the scope.
    pub open spec fn url(self) -> Seq<char> {
        "bmdb://"@ + self.host + "/"@ + tier_text(self.tier) + "/"@ + self.ns + (match self.prefix {
            Some(p) => "/"@ + p,
            None => Seq::empty(),
        })
    }

    /// The scope covers the other: same host, tier and namespace, and a prefix that
    /// bounds the other's by whole segments.
    pub open spec fn covers(self, other: ScopeV) -> bool {
        &&& self.host == other.host
        &&& self.tier == other.tier
        &&& self.ns == other.ns
        &&& match (self.prefix, other.prefix) {
            (None, _) => true,
            (Some(_), None) => false,
            (Some(a), Some(b)) => prefix_covers(a, b),
        }
    }

    /// A scope whose URL reads back as itself.
    pub open spec fn plain(self) -> bool {
        &&& self.host.len() > 0
        &&& !self.host.contains('/')
        &&& plain_ns(self.ns)
    }
}

/// A namespace that one or, for an owner, two segments of a URL write.
pub open spec fn plain_ns(ns: Seq<char>) -> bool {
    ||| ns.len() > 0 && !ns.contains('/') && ns != "u"@
    ||| segments::starts(ns, "u/"@) && !ns.skip(2).contains('/')
}

/// What is wrong with a URL, or its scope.
pub open spec fn scope_of(url: Seq<char>) -> Result<ScopeV, Seq<char>> {
    let segs = segments::split(url.skip(7), '/');
    if !segments::starts(url, "bmdb://"@) {
        Err("scope must start with bmdb://: "@ + text::debug_text(url))
    } else if segs.len() < 2 {
        Err("missing tier"@)
    } else if segs[0].len() == 0 {
        Err("empty host"@)
    } else {
        match tier_of(segs[1]) {
            None => Err("bad tier "@ + text::debug_text(segs[1])),
            Some(tier) => if segs.len() > 2 && segs[2] == "u"@ {
                if segs.len() < 4 {
                    Err("missing owner pk after u/"@)
                } else {
                    Ok(
                        ScopeV {
                            host: segs[0],
                            tier,
                            ns: "u/"@ + segs[3],
                            prefix: if segs.len() > 4 {
                                Some(segments::joined(segs.skip(4), '/'))
                            } else {
                                None
                            },
                        },
                    )
                }
            } else if segs.len() < 3 {
                Err("missing namespace"@)
            } else if segs[2].len() == 0 {
                Err("empty namespace"@)
            } else {
                Ok(
                    ScopeV {
                        host: segs[0],
                        tier,
                        ns: segs[2],
                        prefix: if segs.len() > 3 {
                            Some(segments::joined(segs.skip(3), '/'))
                        } else {
                            None
                        },
                    },
                )
            },
        }
    }
}

impl Scope {
    pub fn to_url(&self) -> (r: String)
        ensures
            r@ == self@.url(),
    {
        let mut s = text::join3("bmdb://", self.host.as_str(), "/");
        s.push_str(self.tier.as_str());
        s.push_str("/");
        s.push_str(self.ns.as_str());
        if let Some(p) = &self.prefix {
            s.push_str("/");
            s.push_str(p.as_str());
        }
        assert(s@ =~= self@.url());
        s
    }

    /// Read a scope's URL. The namespace is one segment, or `u/` and the next one for
    /// an owner; the prefix is all that follows.
    pub fn parse(url: &str) -> (r: Result<Scope, String>)
        ensures
            match scope_of(url@) {
                Ok(s) => r matches Ok(t) && t@ == s,
                Err(f) => r matches Err(e) && e@ == f,
            },
    {
        proof {
            reveal_strlit("bmdb://");
        }
        let rest = match segments::strip_prefix(url, "bmdb://") {
            Some(t) => t,
            None => {
                return Err(text::join2("scope must start with bmdb://: ", text::debug_string(url).as_str()));
            },
        };
        let segs = segments::split_text(rest.as_str(), '/');
        let ghost all = segments::split(url@.skip(7), '/');
        assert(json::texts(segs@) == all);
        let n: usize = segs.len();
        if n < 2 {
            return Err(text::copy_text("missing tier"));
        }
        assert(all[0] == segs@[0]@ && all[1] == segs@[1]@);
        if text::chars_of(segs[0].as_str()).len() == 0 {
            return Err(text::copy_text("empty host"));
        }
        let tier = match Tier::parse(segs[1].as_str()) {
            Some(t) => t,
            None => {
                return Err(text::join2("bad tier ", text::debug_string(segs[1].as_str()).as_str()));
            },
        };
        if n > 2 {
            assert(all[2] == segs@[2]@);
            if text::same_text(segs[2].as_str(), "u") {
                if n < 4 {
                    return Err(text::copy_text("missing owner pk after u/"));
                }
                assert(all[3] == segs@[3]@);
                let prefix = if n > 4 {
                    Some(segments::join_text(&segs, 4, '/'))
                } else {
                    None
                };
                let s = Scope {
                    host: segs[0].clone(),
                    tier,
                    ns: text::join2("u/", segs[3].as_str()),
                    prefix,
                };
                return Ok(s);
            }
        }
        if n < 3 {
            return Err(text::copy_text("missing namespace"));
        }
        if text::chars_of(segs[2].as_str()).len() == 0 {
            return Err(text::copy_text("empty namespace"));
        }
        let prefix = if n > 3 {
            Some(segments::join_text(&segs, 3, '/'))
        } else {
            None
        };
        Ok(Scope { host: segs[0].clone(), tier, ns: segs[2].clone(), prefix })
    }

    /// Does the scope cover the other?
    pub fn covers(&self, other: &Scope) -> (r: bool)
        ensures
            r == self@.covers(other@),
    {
        if !text::same_text(self.host.as_str(), other.host.as_str()) || self.tier != other.tier
            || !text::same_text(self.ns.as_str(), other.ns.as_str()) {
            return false;
        }
        match &self.prefix {
            None => true,
            Some(a) => match &other.prefix {
                None => false,
                Some(b) => bounds(a.as_str(), b.as_str()),
            },
        }
    }
}

fn bounds(a: &str, b: &str) -> (r: bool)
    ensures
        r == prefix_covers(a@, b@),
{
    let x = text::chars_of(a);
    let y = text::chars_of(b);
    if x.len() == 0 {
        return true;
    }
    match segments::strip_prefix(b, a) {
        None => {
            proof {
                if a@ == b@ {
                    assert(b@.take(a@.len() as int) =~= a@);
                }
            }
            false
        },
        Some(_) => {
            if y.len() == x.len() {
                assert(b@.take(a@.len() as int) =~= b@);
                return true;
            }
            x[x.len() - 1] == '/' || y[x.len()] == '/'
        },
    }
}

// ---------- laws of scopes ----------

proof fn lemma_slash()
    ensures
        "/"@ == seq!['/'],
        "u/"@ == seq!['u', '/'],
        "u"@ == seq!['u'],
        "bmdb://"@.len() == 7,
        !"l1"@.contains('/'),
        !"l2"@.contains('/'),
        !"l3"@.contains('/'),
        !"u"@.contains('/'),
        tier_of("l1"@) == Some(Tier::L1),
        tier_of("l2"@) == Some(Tier::L2),
        tier_of("l3"@) == Some(Tier::L3),
{
    reveal_strlit("/");
    reveal_strlit("u/");
    reveal_strlit("u");
    reveal_strlit("bmdb://");
    reveal_strlit("l1");
    reveal_strlit("l2");
    reveal_strlit("l3");
    assert("/"@ =~= seq!['/']);
    assert("u/"@ =~= seq!['u', '/']);
    assert("u"@ =~= seq!['u']);
    assert("l1"@ =~= seq!['l', '1']);
    assert("l2"@ =~= seq!['l', '2']);
    assert("l3"@ =~= seq!['l', '3']);
    assert("l1"@[1] == '1' && "l2"@[1] == '2' && "l3"@[1] == '3');
}

/// Reading a scope's URL gives the scope back.
pub proof fn law_scope_url_round_trip(s: ScopeV)
    requires
        s.plain(),
    ensures
        scope_of(s.url()) == Ok::<ScopeV, Seq<char>>(s),
{
    lemma_slash();
    let url = s.url();
    let t = tier_text(s.tier);
    let tail = match s.prefix {
        Some(p) => "/"@ + p,
        None => Seq::empty(),
    };
    assert(url.take(7) =~= "bmdb://"@);
    assert(url.skip(7) =~= s.host + seq!['/'] + (t + seq!['/'] + (s.ns + tail)));
    segments::lemma_split_front(s.host, t + seq!['/'] + (s.ns + tail), '/');
    segments::lemma_split_front(t, s.ns + tail, '/');
    let segs = segments::split(url.skip(7), '/');
    assert(segs =~= seq![s.host] + (seq![t] + segments::split(s.ns + tail, '/')));
    assert(segs[0] == s.host && segs[1] == t);
    if s.ns.len() > 0 && !s.ns.contains('/') && s.ns != "u"@ {
        match s.prefix {
            Some(p) => {
                assert(s.ns + tail =~= s.ns + seq!['/'] + p);
                segments::lemma_split_front(s.ns, p, '/');
                segments::law_split_joins(p, '/');
                assert(segs[2] == s.ns);
                assert(segs.skip(3) =~= segments::split(p, '/'));
            },
            None => {
                assert(s.ns + tail =~= s.ns);
                segments::lemma_split_whole(s.ns, '/');
                assert(segs[2] == s.ns);
            },
        }
    } else {
        let pk = s.ns.skip(2);
        assert(s.ns =~= "u/"@ + pk) by {
            assert(s.ns.take(2) =~= "u/"@);
        }
        assert(s.ns + tail =~= seq!['u'] + seq!['/'] + (pk + tail));
        segments::lemma_split_front("u"@, pk + tail, '/');
        match s.prefix {
            Some(p) => {
                assert(pk + tail =~= pk + seq!['/'] + p);
                segments::lemma_split_front(pk, p, '/');
                segments::law_split_joins(p, '/');
                assert(segs[2] == "u"@);
                assert(segs[3] == pk);
                assert(segs.skip(4) =~= segments::split(p, '/'));
            },
            None => {
                assert(pk + tail =~= pk);
                segments::lemma_split_whole(pk, '/');
                assert(segs[2] == "u"@);
                assert(segs[3] == pk);
            },
        }
    }
}

/// A scope covers itself.
pub proof fn law_scope_covers_itself(s: ScopeV)
    ensures
        s.covers(s),
{
}

/// What a covered scope covers is covered.
pub proof fn law_covers_is_transitive(a: ScopeV, b: ScopeV, c: ScopeV)
    requires
        a.covers(b),
        b.covers(c),
    ensures
        a.covers(c),
{
    if a.prefix is Some {
        let x = a.prefix->0;
        let y = b.prefix->0;
        let z = c.prefix->0;
        if x != y && x.len() > 0 && y != z {
            if y.len() == 0 {
                assert(y.take(x.len() as int).len() == 0 || x.len() == 0);
            } else {
                assert(z.take(x.len() as int) =~= y.take(x.len() as int)) by {
                    assert(z.take(y.len() as int) == y);
                    assert forall|i: int| 0 <= i < x.len() implies z[i] == y[i] by {
                        assert(z.take(y.len() as int)[i] == y[i]);
                    }
                }
                if y.len() == x.len() {
                    assert(y.take(x.len() as int) =~= y);
                } else {
                    assert(z.take(y.len() as int)[x.len() as int] == y[x.len() as int]);
                }
            }
        }
    }
}

/// A prefix never reaches a sibling that merely starts with its text.
pub proof fn law_sibling_is_not_covered(host: Seq<char>, tier: Tier, ns: Seq<char>, p: Seq<char>, c: char, more: Seq<char>)
    requires
        p.len() > 0,
        p.last() != '/',
        c != '/',
    ensures
        !(ScopeV { host, tier, ns, prefix: Some(p) }).covers(
            ScopeV { host, tier, ns, prefix: Some(p + seq![c] + more) },
        ),
{
    let b = p + seq![c] + more;
    assert(b[p.len() as int] == c);
    assert(b.len() > p.len());
}

// ---------- revocation ----------

/// What has been revoked: pairs of a scope and a principal, and nonces.
#[derive(Debug, PartialEq, Eq)]
pub struct RevocationSet {
    by_principal: Vec<(String, String)>,
    by_nonce: Vec<u64>,
}

/// A revocation set as a value of the model.
#[verifier::ext_equal]
pub struct RevokedV {
    /// Scope URLs and principals, as hexadecimal text.
    pub pairs: Set<(Seq<char>, Seq<char>)>,
    pub nonces: Set<u64>,
}

spec fn pair_views(s: Seq<(String, String)>) -> Seq<(Seq<char>, Seq<char>)> {
    Seq::new(s.len(), |i: int| (s[i].0@, s[i].1@))
}

impl View for RevocationSet {
    type V = RevokedV;

    closed spec fn view(&self) -> RevokedV {
        RevokedV {
            pairs: Set::new(|p: (Seq<char>, Seq<char>)| pair_views(self.by_principal@).contains(p)),
            nonces: Set::new(|n: u64| self.by_nonce@.contains(n)),
        }
    }
}

impl RevokedV {
    /// Is a capability of this scope, principal and nonce revoked?
    pub open spec fn hits(self, url: Seq<char>, principal: Seq<char>, nonce: u64) -> bool {
        self.pairs.contains((url, principal)) || self.nonces.contains(nonce)
    }
}

impl RevocationSet {
    pub fn new() -> (r: RevocationSet)
        ensures
            r@ == (RevokedV { pairs: Set::empty(), nonces: Set::empty() }),
    {
        let r = RevocationSet { by_principal: Vec::new(), by_nonce: Vec::new() };
        assert(r@.pairs =~= Set::empty());
        assert(r@.nonces =~= Set::empty());
        r
    }

    /// Revoke what a principal holds for a scope.
    pub fn revoke_principal(&mut self, scope: &Scope, principal_hex: &str)
        ensures
            final(self)@ == (RevokedV {
                pairs: old(self)@.pairs.insert((scope@.url(), principal_hex@)),
                ..old(self)@
            }),
    {
        let ghost had = pair_views(self.by_principal@);
        self.by_principal.push((scope.to_url(), text::copy_text(principal_hex)));
        proof {
            let now = pair_views(self.by_principal@);
            let p = (scope@.url(), principal_hex@);
            assert(now =~= had.push(p));
            assert forall|q: (Seq<char>, Seq<char>)| now.contains(q) <==> had.contains(q) || q == p by {
                if had.contains(q) {
                    let i = had.index_of(q);
                    assert(now[i] == q);
                }
                if q == p {
                    assert(now[had.len() as int] == q);
                }
                if now.contains(q) && q != p {
                    let i = now.index_of(q);
                    assert(had[i] == q);
                }
            }
            assert(self@.pairs =~= old(self)@.pairs.insert(p));
        }
    }

    /// Revoke the capability with a nonce.
    pub fn revoke_nonce(&mut self, nonce: u64)
        ensures
            final(self)@ == (RevokedV { nonces: old(self)@.nonces.insert(nonce), ..old(self)@ }),
    {
        let ghost had = self.by_nonce@;
        self.by_nonce.push(nonce);
        proof {
            let now = self.by_nonce@;
            assert forall|q: u64| now.contains(q) <==> had.contains(q) || q == nonce by {
                if had.contains(q) {
                    let i = had.index_of(q);
                    assert(now[i] == q);
                }
                if q == nonce {
                    assert(now[had.len() as int] == q);
                }
                if now.contains(q) && q != nonce {
                    let i = now.index_of(q);
                    assert(had[i] == q);
                }
            }
            assert(self@.nonces =~= old(self)@.nonces.insert(nonce));
        }
    }

    /// Is a capability of this scope, principal and nonce revoked?
    pub fn is_revoked(&self, scope: &Scope, principal_hex: &str, nonce: u64) -> (r: bool)
        ensures
            r == self@.hits(scope@.url(), principal_hex@, nonce),
    {
        let url = scope.to_url();
        let ghost p = (url@, principal_hex@);
        let ghost all = pair_views(self.by_principal@);
        let mut i: usize = 0;
        while i < self.by_principal.len()
            invariant
                i <= self.by_principal@.len(),
                all == pair_views(self.by_principal@),
                p == (url@, principal_hex@),
                url@ == scope@.url(),
                forall|j: int| 0 <= j < i ==> #[trigger] all[j] != p,
            decreases self.by_principal@.len() - i,
        {
            assert(all[i as int] == (self.by_principal@[i as int].0@, self.by_principal@[i as int].1@));
            if text::same_text(self.by_principal[i].0.as_str(), url.as_str()) && text::same_text(
                self.by_principal[i].1.as_str(),
                principal_hex,
            ) {
                assert(all.contains(p));
                return true;
            }
            i += 1;
        }
        assert(!all.contains(p));
        let mut k: usize = 0;
        while k < self.by_nonce.len()
            invariant
                k <= self.by_nonce@.len(),
                forall|j: int| 0 <= j < k ==> #[trigger] self.by_nonce@[j] != nonce,
            decreases self.by_nonce@.len() - k,
        {
            if self.by_nonce[k] == nonce {
                assert(self.by_nonce@.contains(nonce));
                return true;
            }
            k += 1;
        }
        false
    }
}

// ---------- root keys ----------

/// The keys whose signatures count: the active root key and its retired predecessors.
#[derive(Debug, PartialEq, Eq)]
pub struct RootKeyring {
    pub active: PublicKey,
    pub retired: Vec<PublicKey>,
}

/// The bytes of some keys.
pub open spec fn key_views(ks: Seq<PublicKey>) -> Seq<Seq<u8>> {
    Seq::new(ks.len(), |i: int| ks[i]@)
}

/// A keyring as a value of the model.
#[verifier::ext_equal]
pub struct KeyringV {
    pub active: Seq<u8>,
    pub retired: Seq<Seq<u8>>,
}

impl View for RootKeyring {
    type V = KeyringV;

    open spec fn view(&self) -> KeyringV {
        KeyringV { active: self.active@, retired: key_views(self.retired@) }
    }
}

impl KeyringV {
    /// Does a signature of the key count?
    pub open spec fn accepts(self, key: Seq<u8>) -> bool {
        key == self.active || self.retired.contains(key)
    }
}

/// The keys that a chain's bytes hold: 32 bytes each, a shorter rest passed over.
pub open spec fn chain_keys(b: Seq<u8>) -> Seq<Seq<u8>> {
    Seq::new(b.len() / 32, |i: int| b.subrange(32 * i, 32 * i + 32))
}

/// The bytes of a chain of keys.
pub open spec fn chain_bytes(ks: Seq<Seq<u8>>) -> Seq<u8>
    decreases ks.len(),
{
    if ks.len() == 0 {
        Seq::empty()
    } else {
        chain_bytes(ks.drop_last()) + ks.last()
    }
}

impl RootKeyring {
    /// A keyring without predecessors.
    pub fn current(active: PublicKey) -> (r: RootKeyring)
        ensures
            r@ == (KeyringV { active: active@, retired: Seq::empty() }),
    {
        let r = RootKeyring { active, retired: Vec::new() };
        assert(r@.retired =~= Seq::empty());
        r
    }

    /// Does a signature of the key count?
    pub fn accepts_issuer(&self, key: &PublicKey) -> (r: bool)
        ensures
            r == self@.accepts(key@),
    {
        if self.active.same(key) {
            return true;
        }
        let ghost all = self@.retired;
        let mut i: usize = 0;
        while i < self.retired.len()
            invariant
                i <= self.retired@.len(),
                all == key_views(self.retired@),
                forall|j: int| 0 <= j < i ==> #[trigger] all[j] != key@,
            decreases self.retired@.len() - i,
        {
            assert(all[i as int] == self.retired@[i as int]@);
            if self.retired[i].same(key) {
                assert(all.contains(key@));
                return true;
            }
            i += 1;
        }
        false
    }

    /// Read the retired keys.
    pub fn parse_chain(bytes: &[u8]) -> (r: Vec<PublicKey>)
        ensures
            key_views(r@) == chain_keys(bytes@),
    {
        let n: usize = bytes.len() / 32;
        let mut out: Vec<PublicKey> = Vec::new();
        let mut i: usize = 0;
        while i < n
            invariant
                i <= n,
                n == bytes@.len() / 32,
                32 * n <= bytes.len(),
                out@.len() == i,
                forall|j: int| 0 <= j < i ==> (#[trigger] out@[j])@ == chain_keys(bytes@)[j],
            decreases n - i,
        {
            let b = read_32(bytes, 32 * i);
            out.push(PublicKey::from_bytes(b));
            i += 1;
        }
        assert(key_views(out@) =~= chain_keys(bytes@));
        out
    }

    /// The retired keys as bytes.
    pub fn to_chain_bytes(&self) -> (r: Vec<u8>)
        ensures
            r@ == chain_bytes(self@.retired),
    {
        let ghost all = self@.retired;
        let mut out: Vec<u8> = Vec::new();
        let mut i: usize = 0;
        assert(all.take(0) =~= Seq::empty());
        while i < self.retired.len()
            invariant
                i <= self.retired@.len(),
                all == key_views(self.retired@),
                out@ == chain_bytes(all.take(i as int)),
            decreases self.retired@.len() - i,
        {
            push_bytes(&mut out, self.retired[i].to_bytes().as_slice());
            proof {
                assert(all.take(i + 1).drop_last() =~= all.take(i as int));
                assert(all.take(i + 1).last() == self.retired@[i as int]@);
            }
            i += 1;
        }
        assert(all.take(i as int) =~= all);
        out
    }
}

/// Reading a chain's bytes gives its keys back.
pub proof fn law_chain_round_trip(ks: Seq<Seq<u8>>)
    requires
        forall|i: int| 0 <= i < ks.len() ==> (#[trigger] ks[i]).len() == 32,
    ensures
        chain_bytes(ks).len() == 32 * ks.len(),
        chain_keys(chain_bytes(ks)) == ks,
    decreases ks.len(),
{
    if ks.len() > 0 {
        let front = ks.drop_last();
        let last = ks.last();
        assert(last == ks[ks.len() - 1]);
        assert forall|i: int| 0 <= i < front.len() implies (#[trigger] front[i]).len() == 32 by {
            assert(front[i] == ks[i]);
        }
        law_chain_round_trip(front);
        let b = chain_bytes(ks);
        let a = chain_bytes(front);
        assert forall|i: int| 0 <= i < ks.len() implies #[trigger] chain_keys(b)[i] == ks[i] by {
            if i < front.len() {
                assert(b.subrange(32 * i, 32 * i + 32) =~= a.subrange(32 * i, 32 * i + 32));
                assert(chain_keys(a)[i] == front[i]);
            } else {
                assert(b.subrange(32 * i, 32 * i + 32) =~= last);
            }
        }
        assert(chain_keys(b) =~= ks);
    } else {
        assert(chain_keys(chain_bytes(ks)) =~= ks);
    }
}

// ---------- capabilities ----------

/// A signed capability. It is bound to one principal, its subject.
#[derive(Debug, PartialEq, Eq)]
pub struct Capability {
    pub scope: Scope,
    pub perms: PermSet,
    pub expiry_ms: Option<u64>,
    pub nonce: u64,
    pub issuer: PublicKey,
    pub subject: PublicKey,
    pub sig: [u8; 64],
}

/// A capability as a value of the model.
#[verifier::ext_equal]
pub struct CapV {
    pub scope: ScopeV,
    pub perms: u8,
    pub expiry_ms: Option<u64>,
    pub nonce: u64,
    pub issuer: Seq<u8>,
    pub subject: Seq<u8>,
    pub sig: Seq<u8>,
}

impl View for Capability {
    type V = CapV;

    open spec fn view(&self) -> CapV {
        CapV {
            scope: self.scope@,
            perms: self.perms.0,
            expiry_ms: self.expiry_ms,
            nonce: self.nonce,
            issuer: self.issuer@,
            subject: self.subject@,
            sig: self.sig@,
        }
    }
}

impl Clone for Capability {
    fn clone(&self) -> (r: Capability)
        ensures
            r@ == self@,
    {
        Capability {
            scope: self.scope.clone(),
            perms: self.perms,
            expiry_ms: self.expiry_ms,
            nonce: self.nonce,
            issuer: self.issuer,
            subject: self.subject,
            sig: self.sig,
        }
    }
}

/// Why a capability does not count.
#[derive(Debug, Clone, Copy, PartialEq, Eq, Structural)]
pub enum CapError {
    BadIssuer,
    BadSig,
    Expired,
    Revoked,
    Malformed,
}

/// The members of a capability's JSON that are signed, in their order.
pub open spec fn sign_members(c: CapV) -> Seq<(Seq<char>, MemberV)> {
    seq![
        ("scope"@, MemberV::Str(c.scope.url())),
        ("perms"@, MemberV::List(perm_names(c.perms))),
        (
            "expiry_ms"@,
            match c.expiry_ms {
                Some(n) => MemberV::Uint(n),
                None => MemberV::Null,
            },
        ),
        ("nonce"@, MemberV::Uint(c.nonce)),
        ("issuer"@, MemberV::Str(hexes::hex_text(c.issuer))),
        ("subject"@, MemberV::Str(hexes::hex_text(c.subject))),
    ]
}

/// The members of a capability's JSON.
pub open spec fn cap_members(c: CapV) -> Seq<(Seq<char>, MemberV)> {
    sign_members(c).push(("sig"@, MemberV::Str(util::b64_text(true, c.sig))))
}

/// The bytes that a capability's signature is over.
pub open spec fn canonical(c: CapV) -> Seq<u8> {
    text::utf8(json::object_text(sign_members(c)))
}

/// What identifies a capability by its content: the digest of the signed bytes and the
/// signature.
pub open spec fn cap_digest(c: CapV) -> Seq<char> {
    hexes::hex_text(hash::sha256_digest(canonical(c) + c.sig))
}

/// Is the capability past its expiry?
pub open spec fn cap_expired(c: CapV, now_ms: u64) -> bool {
    c.expiry_ms matches Some(e) && now_ms >= e
}

/// Does the capability count for a principal at a time? Where its signature and its
/// revocation were checked before, only the rest is.
pub open spec fn cap_check(
    c: CapV,
    keys: KeyringV,
    principal: Seq<u8>,
    rev: RevokedV,
    now_ms: u64,
    cached: bool,
) -> Result<(), CapError> {
    if !keys.accepts(c.issuer) {
        Err(CapError::BadIssuer)
    } else if !cached && !ident::verifies(c.issuer, canonical(c), c.sig) {
        Err(CapError::BadSig)
    } else if c.subject != principal {
        Err(CapError::Malformed)
    } else if cap_expired(c, now_ms) {
        Err(CapError::Expired)
    } else if !cached && rev.hits(c.scope.url(), hexes::hex_text(principal), c.nonce) {
        Err(CapError::Revoked)
    } else {
        Ok(())
    }
}

/// A text member of an object.
pub open spec fn str_field(m: Seq<(Seq<char>, json::JsonV)>, name: Seq<char>) -> Option<Seq<char>> {
    match json::member(m, name) {
        Some(json::JsonV::Str(s)) => Some(s),
        _ => None,
    }
}

/// A member of an object that is an unsigned integer.
pub open spec fn uint_field(m: Seq<(Seq<char>, json::JsonV)>, name: Seq<char>) -> Option<u64> {
    match json::member(m, name) {
        Some(json::JsonV::Num(n)) => n.uint,
        _ => None,
    }
}

/// A member that may be missing or null.
pub open spec fn opt_uint_field(m: Seq<(Seq<char>, json::JsonV)>, name: Seq<char>) -> Option<Option<u64>> {
    match json::member(m, name) {
        None => Some(None),
        Some(json::JsonV::Null) => Some(None),
        Some(json::JsonV::Num(n)) => match n.uint {
            Some(x) => Some(Some(x)),
            None => None,
        },
        _ => None,
    }
}

/// The texts of an array, if it holds nothing else.
pub open spec fn all_texts(a: Seq<json::JsonV>) -> Option<Seq<Seq<char>>> {
    if forall|i: int| 0 <= i < a.len() ==> (#[trigger] a[i]) is Str {
        Some(Seq::new(a.len(), |i: int| a[i]->Str_0))
    } else {
        None
    }
}

/// A member of an object that is an array of texts.
pub open spec fn texts_field(m: Seq<(Seq<char>, json::JsonV)>, name: Seq<char>) -> Option<Seq<Seq<char>>> {
    match json::member(m, name) {
        Some(json::JsonV::Arr(a)) => all_texts(a),
        _ => None,
    }
}

pub open spec fn bad_field(name: Seq<char>) -> Seq<char> {
    "bad cap json: missing or invalid field `"@ + name + "`"@
}

/// The fields of a capability's JSON, before they are read further.
pub struct WireV {
    pub scope: Seq<char>,
    pub perms: Seq<Seq<char>>,
    pub expiry_ms: Option<u64>,
    pub nonce: u64,
    pub issuer: Seq<char>,
    pub subject: Seq<char>,
    pub sig: Seq<char>,
}

pub open spec fn wire_of(m: Seq<(Seq<char>, json::JsonV)>) -> Result<WireV, Seq<char>> {
    if str_field(m, "scope"@) is None {
        Err(bad_field("scope"@))
    } else if texts_field(m, "perms"@) is None {
        Err(bad_field("perms"@))
    } else if opt_uint_field(m, "expiry_ms"@) is None {
        Err(bad_field("expiry_ms"@))
    } else if uint_field(m, "nonce"@) is None {
        Err(bad_field("nonce"@))
    } else if str_field(m, "issuer"@) is None {
        Err(bad_field("issuer"@))
    } else if str_field(m, "subject"@) is None {
        Err(bad_field("subject"@))
    } else if str_field(m, "sig"@) is None {
        Err(bad_field("sig"@))
    } else {
        Ok(
            WireV {
                scope: str_field(m, "scope"@)->0,
                perms: texts_field(m, "perms"@)->0,
                expiry_ms: opt_uint_field(m, "expiry_ms"@)->0,
                nonce: uint_field(m, "nonce"@)->0,
                issuer: str_field(m, "issuer"@)->0,
                subject: str_field(m, "subject"@)->0,
                sig: str_field(m, "sig"@)->0,
            },
        )
    }
}

/// The capability of some fields, or what is wrong with the first bad one.
pub open spec fn cap_of_wire(w: WireV) -> Result<CapV, Seq<char>> {
    match scope_of(w.scope) {
        Err(e) => Err(e),
        Ok(scope) => match perms_of(w.perms) {
            Err(e) => Err(e),
            Ok(perms) => if !ident::is_key_text(w.issuer) {
                Err("bad issuer: "@ + ident::key_fault(w.issuer))
            } else if !ident::is_key_text(w.subject) {
                Err("bad subject: "@ + ident::key_fault(w.subject))
            } else {
                match util::b64_bytes(true, text::utf8(w.sig)) {
                    Err(e) => Err("bad sig: "@ + e),
                    Ok(sig) => if sig.len() != 64 {
                        Err("bad sig length "@ + text::decimal(sig.len() as int))
                    } else {
                        Ok(
                            CapV {
                                scope,
                                perms,
                                expiry_ms: w.expiry_ms,
                                nonce: w.nonce,
                                issuer: hexes::hex_bytes(w.issuer),
                                subject: hexes::hex_bytes(w.subject),
                                sig,
                            },
                        )
                    },
                }
            },
        },
    }
}

/// The members that the elements of an array stand for: the fields in their order.
pub open spec fn in_order(a: Seq<json::JsonV>) -> Seq<(Seq<char>, json::JsonV)> {
    seq![
        ("scope"@, a[0]),
        ("perms"@, a[1]),
        ("expiry_ms"@, a[2]),
        ("nonce"@, a[3]),
        ("issuer"@, a[4]),
        ("subject"@, a[5]),
        ("sig"@, a[6]),
    ]
}

/// The capability of some members, or what is wrong with them.
pub open spec fn cap_of_members(m: Seq<(Seq<char>, json::JsonV)>) -> Result<CapV, Seq<char>> {
    match wire_of(m) {
        Err(e) => Err(e),
        Ok(w) => cap_of_wire(w),
    }
}

/// The capability that a JSON value holds, or what is wrong with it: an object with the
/// fields, or an array of their values in order.
pub open spec fn cap_of_json(j: Option<json::JsonV>) -> Result<CapV, Seq<char>> {
    match j {
        Some(json::JsonV::Obj(m)) => cap_of_members(m),
        Some(json::JsonV::Arr(a)) => if a.len() == 7 {
            cap_of_members(in_order(a))
        } else {
            Err("bad cap json: expected 7 elements"@)
        },
        _ => Err("bad cap json: not an object"@),
    }
}

/// The capability reads back from its own JSON.
pub open spec fn cap_plain(c: CapV) -> bool {
    c.scope.plain() && c.perms <= 7 && c.issuer.len() == 32 && c.subject.len() == 32 && c.sig.len() == 64
}

proof fn lemma_member_names()
    ensures
        "scope"@ != "perms"@,
        "scope"@ != "expiry_ms"@,
        "scope"@ != "nonce"@,
        "scope"@ != "issuer"@,
        "scope"@ != "subject"@,
        "scope"@ != "sig"@,
        "perms"@ != "expiry_ms"@,
        "perms"@ != "nonce"@,
        "perms"@ != "issuer"@,
        "perms"@ != "subject"@,
        "perms"@ != "sig"@,
        "expiry_ms"@ != "nonce"@,
        "expiry_ms"@ != "issuer"@,
        "expiry_ms"@ != "subject"@,
        "expiry_ms"@ != "sig"@,
        "nonce"@ != "issuer"@,
        "nonce"@ != "subject"@,
        "nonce"@ != "sig"@,
        "issuer"@ != "subject"@,
        "issuer"@ != "sig"@,
        "subject"@ != "sig"@,
{
    reveal_strlit("scope");
    reveal_strlit("perms");
    reveal_strlit("expiry_ms");
    reveal_strlit("nonce");
    reveal_strlit("issuer");
    reveal_strlit("subject");
    reveal_strlit("sig");
    assert("scope"@.len() == 5 && "perms"@.len() == 5 && "nonce"@.len() == 5);
    assert("expiry_ms"@.len() == 9 && "issuer"@.len() == 6 && "subject"@.len() == 7 && "sig"@.len() == 3);
    assert("scope"@[0] == 's' && "perms"@[0] == 'p' && "nonce"@[0] == 'n');
}

proof fn lemma_distinct_members(c: CapV)
    ensures
        json::distinct_names(cap_members(c)),
        json::distinct_names(sign_members(c)),
        json::free_name(cap_members(c)),
        json::free_name(sign_members(c)),
{
    reveal_strlit("scope");
    reveal_strlit("$serde_json::private::");
    assert("scope"@.len() == 5 && "$serde_json::private::"@.len() == 22);
    lemma_member_names();
    let m = cap_members(c);
    assert(m.len() == 7);
    assert forall|i: int, j: int| 0 <= i < j < m.len() implies (#[trigger] m[i]).0 != (#[trigger] m[j]).0 by {
        assert(m[0].0 == "scope"@ && m[1].0 == "perms"@ && m[2].0 == "expiry_ms"@ && m[3].0 == "nonce"@
            && m[4].0 == "issuer"@ && m[5].0 == "subject"@ && m[6].0 == "sig"@);
    }
    let s = sign_members(c);
    assert forall|i: int, j: int| 0 <= i < j < s.len() implies (#[trigger] s[i]).0 != (#[trigger] s[j]).0 by {
        assert(s[i] == m[i] && s[j] == m[j]);
    }
}

/// An object with a capability's members reads as the capability.
proof fn lemma_members_read(c: CapV, j: json::JsonV)
    requires
        cap_plain(c),
        json::is_object_of(j, cap_members(c)),
    ensures
        cap_of_json(Some(j)) == Ok::<CapV, Seq<char>>(c),
{
    let m = cap_members(c);
    let o = j->Obj_0;
    lemma_distinct_members(c);
    assert forall|i: int| 0 <= i < 7 implies json::member(o, (#[trigger] o[i]).0) == Some(o[i].1) by {
        assert forall|k: int| 0 <= k < i implies (#[trigger] o[k]).0 != o[i].0 by {
            assert(m[k].0 != m[i].0);
        }
        json::lemma_member_at(o, i);
    }
    assert(o[0].0 == "scope"@ && o[1].0 == "perms"@ && o[2].0 == "expiry_ms"@ && o[3].0 == "nonce"@ && o[4].0
        == "issuer"@ && o[5].0 == "subject"@ && o[6].0 == "sig"@);
    assert(m[0].1.held_by(o[0].1));
    assert(m[1].1.held_by(o[1].1));
    assert(m[2].1.held_by(o[2].1));
    assert(m[3].1.held_by(o[3].1));
    assert(m[4].1.held_by(o[4].1));
    assert(m[5].1.held_by(o[5].1));
    assert(m[6].1.held_by(o[6].1));
    let names = perm_names(c.perms);
    let a = o[1].1->Arr_0;
    assert(all_texts(a) == Some(names)) by {
        assert(Seq::new(a.len(), |i: int| a[i]->Str_0) =~= names);
    }
    let w = wire_of(o)->Ok_0;
    assert(wire_of(o) is Ok);
    assert(w.scope == c.scope.url());
    law_scope_url_round_trip(c.scope);
    law_perm_names_round_trip(c.perms);
    hexes::law_hex_round_trip(c.issuer);
    hexes::law_hex_round_trip(c.subject);
    util::law_b64_round_trip(true, c.sig);
    assert(cap_of_wire(w)->Ok_0 =~= c);
}

fn str_member(m: &Vec<(String, Json)>, name: &str) -> (r: Result<String, String>)
    ensures
        match str_field(json::members_of(m@), name@) {
            Some(s) => r matches Ok(t) && t@ == s,
            None => r matches Err(e) && e@ == bad_field(name@),
        },
{
    match json::find_member(m, name) {
        Some(Json::Str(s)) => Ok(s.clone()),
        _ => Err(text::join3("bad cap json: missing or invalid field `", name, "`")),
    }
}

fn uint_member(m: &Vec<(String, Json)>, name: &str) -> (r: Result<u64, String>)
    ensures
        match uint_field(json::members_of(m@), name@) {
            Some(n) => r matches Ok(k) && k == n,
            None => r matches Err(e) && e@ == bad_field(name@),
        },
{
    match json::find_member(m, name) {
        Some(Json::Num(n)) => match n.uint {
            Some(x) => Ok(x),
            None => Err(text::join3("bad cap json: missing or invalid field `", name, "`")),
        },
        _ => Err(text::join3("bad cap json: missing or invalid field `", name, "`")),
    }
}

fn opt_uint_member(m: &Vec<(String, Json)>, name: &str) -> (r: Result<Option<u64>, String>)
    ensures
        match opt_uint_field(json::members_of(m@), name@) {
            Some(n) => r matches Ok(k) && k == n,
            None => r matches Err(e) && e@ == bad_field(name@),
        },
{
    match json::find_member(m, name) {
        None => Ok(None),
        Some(Json::Null) => Ok(None),
        Some(Json::Num(n)) => match n.uint {
            Some(x) => Ok(Some(x)),
            None => Err(text::join3("bad cap json: missing or invalid field `", name, "`")),
        },
        _ => Err(text::join3("bad cap json: missing or invalid field `", name, "`")),
    }
}

/// The texts of an array, if it holds nothing else.
pub fn array_texts(a: &Vec<Json>) -> (r: Option<Vec<String>>)
    ensures
        match all_texts(json::elements_of(a@)) {
            Some(l) => r matches Some(v) && json::texts(v@) == l,
            None => r is None,
        },
{
    let ghost all = json::elements_of(a@);
    let mut out: Vec<String> = Vec::new();
    let mut i: usize = 0;
    while i < a.len()
        invariant
            i <= a@.len(),
            all == json::elements_of(a@),
            out@.len() == i,
            forall|j: int| 0 <= j < i ==> (#[trigger] all[j]) is Str && out@[j]@ == all[j]->Str_0,
        decreases a@.len() - i,
    {
        assert(all[i as int] == a@[i as int].value());
        match &a[i] {
            Json::Str(s) => {
                out.push(s.clone());
            },
            _ => {
                return None;
            },
        }
        i += 1;
    }
    assert(json::texts(out@) =~= Seq::new(all.len(), |j: int| all[j]->Str_0));
    Some(out)
}

fn texts_member(m: &Vec<(String, Json)>, name: &str) -> (r: Result<Vec<String>, String>)
    ensures
        match texts_field(json::members_of(m@), name@) {
            Some(l) => r matches Ok(v) && json::texts(v@) == l,
            None => r matches Err(e) && e@ == bad_field(name@),
        },
{
    let found = json::find_member(m, name);
    if let Some(Json::Arr(a)) = found {
        proof {
            json::lemma_value(*found->0);
        }
        if let Some(v) = array_texts(a) {
            return Ok(v);
        }
    }
    Err(text::join3("bad cap json: missing or invalid field `", name, "`"))
}

/// The members that the elements of an array stand for.
fn labelled(a: Vec<Json>) -> (m: Vec<(String, Json)>)
    requires
        a@.len() == 7,
    ensures
        json::members_of(m@) == in_order(json::elements_of(a@)),
{
    let ghost all = a@;
    let mut a = a;
    let sig = a.pop().unwrap();
    let subject = a.pop().unwrap();
    let issuer = a.pop().unwrap();
    let nonce = a.pop().unwrap();
    let expiry_ms = a.pop().unwrap();
    let perms = a.pop().unwrap();
    let scope = a.pop().unwrap();
    let mut m: Vec<(String, Json)> = Vec::new();
    m.push((text::copy_text("scope"), scope));
    m.push((text::copy_text("perms"), perms));
    m.push((text::copy_text("expiry_ms"), expiry_ms));
    m.push((text::copy_text("nonce"), nonce));
    m.push((text::copy_text("issuer"), issuer));
    m.push((text::copy_text("subject"), subject));
    m.push((text::copy_text("sig"), sig));
    assert(json::members_of(m@) =~= in_order(json::elements_of(all)));
    m
}

/// The 64 bytes at the front.
fn read_64(b: &[u8]) -> (r: [u8; 64])
    requires
        b@.len() == 64,
    ensures
        r@ == b@,
{
    let mut r = [0u8; 64];
    let mut i: usize = 0;
    while i < 64
        invariant
            i <= 64,
            b@.len() == 64,
            forall|j: int| 0 <= j < i ==> r@[j] == b@[j],
        decreases 64 - i,
    {
        r[i] = b[i];
        i += 1;
    }
    assert(r@ =~= b@);
    r
}

impl Capability {
    /// The members that are signed.
    fn sign_view(&self) -> (r: Vec<(String, Member)>)
        ensures
            json::member_views(r@) == sign_members(self@),
    {
        let perms = self.perms.names();
        let expiry = match self.expiry_ms {
            Some(n) => Member::Uint(n),
            None => Member::Null,
        };
        let mut m: Vec<(String, Member)> = Vec::new();
        m.push((text::copy_text("scope"), Member::Str(self.scope.to_url())));
        m.push((text::copy_text("perms"), Member::List(perms)));
        m.push((text::copy_text("expiry_ms"), expiry));
        m.push((text::copy_text("nonce"), Member::Uint(self.nonce)));
        m.push((text::copy_text("issuer"), Member::Str(self.issuer.to_hex())));
        m.push((text::copy_text("subject"), Member::Str(self.subject.to_hex())));
        assert(json::member_views(m@) =~= sign_members(self@));
        m
    }

    /// The bytes that the signature is over.
    fn canonical_bytes(&self) -> (b: Vec<u8>)
        ensures
            b@ == canonical(self@),
    {
        let m = self.sign_view();
        text::bytes_of(json::write_object(&m).as_str())
    }

    /// Sign a capability for a subject.
    pub fn sign_for(
        scope: Scope,
        perms: PermSet,
        expiry_ms: Option<u64>,
        nonce: u64,
        subject: PublicKey,
        kp: &Keypair,
    ) -> (c: Capability)
        ensures
            c@ == (CapV {
                scope: scope@,
                perms: perms.0,
                expiry_ms,
                nonce,
                issuer: ident::public_of(kp.seed()),
                subject: subject@,
                sig: ident::signature_of(kp.seed(), canonical(c@)),
            }),
            ident::verifies(c@.issuer, canonical(c@), c@.sig),
    {
        let mut c = Capability {
            scope,
            perms,
            expiry_ms,
            nonce,
            issuer: kp.public(),
            subject,
            sig: [0u8; 64],
        };
        let bytes = c.canonical_bytes();
        let ghost unsigned = c@;
        c.sig = kp.sign(bytes.as_slice());
        assert(sign_members(c@) =~= sign_members(unsigned));
        c
    }

    /// Sign a capability for the signer itself.
    pub fn sign(scope: Scope, perms: PermSet, expiry_ms: Option<u64>, nonce: u64, kp: &Keypair) -> (c: Capability)
        ensures
            c@ == (CapV {
                scope: scope@,
                perms: perms.0,
                expiry_ms,
                nonce,
                issuer: ident::public_of(kp.seed()),
                subject: ident::public_of(kp.seed()),
                sig: ident::signature_of(kp.seed(), canonical(c@)),
            }),
            ident::verifies(c@.issuer, canonical(c@), c@.sig),
    {
        Capability::sign_for(scope, perms, expiry_ms, nonce, kp.public(), kp)
    }

    /// Does the capability count? See [`cap_check`].
    pub fn verify_or_cached(
        &self,
        keyring: &RootKeyring,
        principal: &PublicKey,
        revocations: &RevocationSet,
        now_ms: u64,
        cached: bool,
    ) -> (r: Result<(), CapError>)
        ensures
            r == cap_check(self@, keyring@, principal@, revocations@, now_ms, cached),
    {
        if !keyring.accepts_issuer(&self.issuer) {
            return Err(CapError::BadIssuer);
        }
        if !cached && !self.issuer.verify(self.canonical_bytes().as_slice(), &self.sig) {
            return Err(CapError::BadSig);
        }
        if !self.subject.same(principal) {
            return Err(CapError::Malformed);
        }
        if let Some(exp) = self.expiry_ms {
            if now_ms >= exp {
                return Err(CapError::Expired);
            }
        }
        if !cached && revocations.is_revoked(&self.scope, principal.to_hex().as_str(), self.nonce) {
            return Err(CapError::Revoked);
        }
        Ok(())
    }

    /// Does the capability count, with everything checked?
    pub fn verify(
        &self,
        keyring: &RootKeyring,
        principal: &PublicKey,
        revocations: &RevocationSet,
        now_ms: u64,
    ) -> (r: Result<(), CapError>)
        ensures
            r == cap_check(self@, keyring@, principal@, revocations@, now_ms, false),
    {
        self.verify_or_cached(keyring, principal, revocations, now_ms, false)
    }

    /// What identifies the capability by its content, as hexadecimal text.
    pub fn digest_hex(&self) -> (r: String)
        ensures
            r@ == cap_digest(self@),
            r@.len() == 64,
    {
        let d = hash::sha256_parts(self.canonical_bytes().as_slice(), self.sig.as_slice());
        hexes::hex_encode(d.as_slice())
    }

    /// The capability as JSON; it reads back as the capability.
    pub fn to_json(&self) -> (s: String)
        ensures
            s@ == json::object_text(cap_members(self@)),
            cap_plain(self@) ==> cap_of_json(json::json_read(s@)) == Ok::<CapV, Seq<char>>(self@),
    {
        let mut m = self.sign_view();
        m.push((text::copy_text("sig"), Member::Str(util::b64url_encode(self.sig.as_slice()))));
        proof {
            assert(json::member_views(m@) =~= cap_members(self@));
            lemma_distinct_members(self@);
        }
        let s = json::write_object(&m);
        proof {
            if cap_plain(self@) {
                lemma_members_read(self@, json::json_read(s@)->0);
            }
        }
        s
    }

    /// The token: `bmdb-cap:` and the JSON in Base64.
    pub fn to_header(&self) -> (s: String)
        ensures
            s@ == "bmdb-cap:"@ + util::b64_text(true, text::utf8(json::object_text(cap_members(self@)))),
            cap_plain(self@) ==> cap_of_token(s@) == Ok::<CapV, Seq<char>>(self@),
    {
        let j = self.to_json();
        let body = util::b64url_encode(j.as_str().as_bytes());
        proof {
            let b = text::utf8(j@);
            let t = "bmdb-cap:"@ + body@;
            assert(t.take("bmdb-cap:"@.len() as int) =~= "bmdb-cap:"@);
            assert(t.skip("bmdb-cap:"@.len() as int) =~= body@);
            util::law_b64_round_trip(true, b);
            text::lemma_utf8_decodes(j@);
        }
        text::join2("bmdb-cap:", body.as_str())
    }

    /// Read a capability's JSON: an object with the fields, or an array of their values in
    /// order. Where a text names a field twice, the tree that is read from it holds the
    /// last of the two.
    pub fn from_json(s: &str) -> (r: Result<Capability, String>)
        ensures
            match cap_of_json(json::json_read(s@)) {
                Ok(c) => r matches Ok(d) && d@ == c,
                Err(f) => r matches Err(e) && e@ == f,
            },
    {
        let j = match json::read_json(s) {
            Some(j) => j,
            None => {
                return Err(text::copy_text("bad cap json: not an object"));
            },
        };
        proof {
            json::lemma_value(j);
        }
        match j {
            Json::Obj(m) => Capability::from_members(&m),
            Json::Arr(a) => {
                if a.len() != 7 {
                    return Err(text::copy_text("bad cap json: expected 7 elements"));
                }
                Capability::from_members(&labelled(a))
            },
            _ => Err(text::copy_text("bad cap json: not an object")),
        }
    }

    fn from_members(m: &Vec<(String, Json)>) -> (r: Result<Capability, String>)
        ensures
            match cap_of_members(json::members_of(m@)) {
                Ok(c) => r matches Ok(d) && d@ == c,
                Err(f) => r matches Err(e) && e@ == f,
            },
    {
        let scope_text = match str_member(m, "scope") {
            Ok(x) => x,
            Err(e) => {
                return Err(e);
            },
        };
        let names = match texts_member(m, "perms") {
            Ok(x) => x,
            Err(e) => {
                return Err(e);
            },
        };
        let expiry_ms = match opt_uint_member(m, "expiry_ms") {
            Ok(x) => x,
            Err(e) => {
                return Err(e);
            },
        };
        let nonce: u64 = match uint_member(m, "nonce") {
            Ok(x) => x,
            Err(e) => {
                return Err(e);
            },
        };
        let issuer_text = match str_member(m, "issuer") {
            Ok(x) => x,
            Err(e) => {
                return Err(e);
            },
        };
        let subject_text = match str_member(m, "subject") {
            Ok(x) => x,
            Err(e) => {
                return Err(e);
            },
        };
        let sig_text = match str_member(m, "sig") {
            Ok(x) => x,
            Err(e) => {
                return Err(e);
            },
        };
        let scope = match Scope::parse(scope_text.as_str()) {
            Ok(x) => x,
            Err(e) => {
                return Err(e);
            },
        };
        let perms = match PermSet::parse_list(&names) {
            Ok(x) => x,
            Err(e) => {
                return Err(e);
            },
        };
        let issuer = match PublicKey::from_hex(issuer_text.as_str()) {
            Ok(x) => x,
            Err(e) => {
                return Err(text::join2("bad issuer: ", e.as_str()));
            },
        };
        let subject = match PublicKey::from_hex(subject_text.as_str()) {
            Ok(x) => x,
            Err(e) => {
                return Err(text::join2("bad subject: ", e.as_str()));
            },
        };
        let sig = match util::b64url_decode(sig_text.as_str()) {
            Ok(x) => x,
            Err(e) => {
                return Err(text::join2("bad sig: ", e.as_str()));
            },
        };
        if sig.len() != 64 {
            return Err(text::join2("bad sig length ", text::dec(sig.len() as u64).as_str()));
        }
        let sig = read_64(sig.as_slice());
        Ok(Capability { scope, perms, expiry_ms, nonce, issuer, subject, sig })
    }

    /// Read a token: `bmdb-cap:` and the JSON in Base64.
    pub fn from_token(t: &str) -> (r: Result<Capability, String>)
        ensures
            match cap_of_token(t@) {
                Ok(c) => r matches Ok(d) && d@ == c,
                Err(f) => r matches Err(e) && e@ == f,
            },
    {
        let body = match segments::strip_prefix(t, "bmdb-cap:") {
            Some(b) => b,
            None => {
                return Err(text::copy_text("expected bmdb-cap: token"));
            },
        };
        let bytes = match util::b64url_decode(body.as_str()) {
            Ok(b) => b,
            Err(e) => {
                return Err(e);
            },
        };
        match text::utf8_string(bytes.as_slice()) {
            Some(s) => Capability::from_json(s.as_str()),
            None => Err(text::copy_text("token is not UTF-8")),
        }
    }
}

/// The capability of a token, or what is wrong with it.
pub open spec fn cap_of_token(t: Seq<char>) -> Result<CapV, Seq<char>> {
    if !segments::starts(t, "bmdb-cap:"@) {
        Err("expected bmdb-cap: token"@)
    } else {
        match util::b64_bytes(true, text::utf8(t.skip("bmdb-cap:"@.len() as int))) {
            Err(e) => Err(e),
            Ok(b) => if vstd::utf8::valid_utf8(b) {
                cap_of_json(json::json_read(vstd::utf8::decode_utf8(b)))
            } else {
                Err("token is not UTF-8"@)
            },
        }
    }
}

/// The capability of an `Authorization` header, or what is wrong with it.
pub open spec fn cap_of_header(h: Seq<char>) -> Result<CapV, Seq<char>> {
    if !segments::starts(h, "Bearer "@) {
        Err("expected Bearer scheme"@)
    } else {
        cap_of_token(h.skip("Bearer "@.len() as int))
    }
}

/// Read an `Authorization` header: `Bearer ` and a token.
pub fn parse_cap_header(h: &str) -> (r: Result<Capability, String>)
    ensures
        match cap_of_header(h@) {
            Ok(c) => r matches Ok(d) && d@ == c,
            Err(f) => r matches Err(e) && e@ == f,
        },
{
    match segments::strip_prefix(h, "Bearer ") {
        Some(t) => Capability::from_token(t.as_str()),
        None => Err(text::copy_text("expected Bearer scheme")),
    }
}

// ---------- laws of capabilities ----------

/// A capability signed by an accepted key counts for its subject until it expires or
/// is revoked.
pub proof fn law_signed_cap_counts(c: CapV, keys: KeyringV, rev: RevokedV, now_ms: u64)
    requires
        ident::verifies(c.issuer, canonical(c), c.sig),
        keys.accepts(c.issuer),
    ensures
        !cap_expired(c, now_ms) && !rev.hits(c.scope.url(), hexes::hex_text(c.subject), c.nonce) ==> cap_check(
            c,
            keys,
            c.subject,
            rev,
            now_ms,
            false,
        ) is Ok,
        cap_expired(c, now_ms) ==> cap_check(c, keys, c.subject, rev, now_ms, false) == Err::<(), CapError>(
            CapError::Expired,
        ),
        !cap_expired(c, now_ms) && rev.hits(c.scope.url(), hexes::hex_text(c.subject), c.nonce) ==> cap_check(
            c,
            keys,
            c.subject,
            rev,
            now_ms,
            false,
        ) == Err::<(), CapError>(CapError::Revoked),
{
}

/// A capability whose signature is not good never counts, unless its verdict is cached.
pub proof fn law_forged_cap_never_counts(c: CapV, keys: KeyringV, principal: Seq<u8>, rev: RevokedV, now_ms: u64)
    requires
        !ident::verifies(c.issuer, canonical(c), c.sig),
    ensures
        cap_check(c, keys, principal, rev, now_ms, false) is Err,
{
}

/// A cached verdict says what a full check would, where that check's signature and
/// revocation steps pass.
pub proof fn law_cached_verdict_agrees(c: CapV, keys: KeyringV, principal: Seq<u8>, rev: RevokedV, now_ms: u64)
    requires
        ident::verifies(c.issuer, canonical(c), c.sig),
        !rev.hits(c.scope.url(), hexes::hex_text(principal), c.nonce),
    ensures
        cap_check(c, keys, principal, rev, now_ms, true) == cap_check(c, keys, principal, rev, now_ms, false),
{
}

// ---------- the token cache ----------

/// The digest of an `Authorization` header.
pub open spec fn token_id(h: Seq<char>) -> Seq<u8> {
    hash::sha256_digest(text::utf8(h))
}

/// The digest of an `Authorization` header.
pub fn token_digest(h: &str) -> (d: [u8; 32])
    ensures
        d@ == token_id(h@),
{
    let none: Vec<u8> = Vec::new();
    let d = hash::sha256_parts(h.as_bytes(), none.as_slice());
    assert(text::utf8(h@) + none@ =~= text::utf8(h@));
    d
}

/// How many tokens are kept.
pub const TOKEN_CACHE_MAX: usize = 8192;

/// Is the capability what a header with the digest reads as?
pub open spec fn read_from(digest: Seq<u8>, c: CapV) -> bool {
    exists|h: Seq<char>| #[trigger] token_id(h) == digest && cap_of_header(h) == Ok::<CapV, Seq<char>>(c)
}

/// Was every capability that is kept read from a header with its digest?
pub open spec fn honest(m: Map<Seq<u8>, CapV>) -> bool {
    forall|d: Seq<u8>| #[trigger] m.dom().contains(d) ==> read_from(d, m[d])
}

/// The kept capabilities after a header was looked up: one that was read now is kept
/// too, and a full cache is emptied before.
pub open spec fn kept_tokens(m: Map<Seq<u8>, CapV>, h: Seq<char>) -> Map<Seq<u8>, CapV> {
    if m.dom().contains(token_id(h)) {
        m
    } else {
        match cap_of_header(h) {
            Ok(c) => (if crate::ordmap::listed(m.dom()).len() >= TOKEN_CACHE_MAX {
                Map::empty()
            } else {
                m
            }).insert(token_id(h), c),
            Err(_) => m,
        }
    }
}

/// Capabilities that were read before, by the digest of their header. A full cache is
/// emptied before the next one is kept.
pub struct TokenCache {
    entries: crate::ordmap::OrdMap<Capability>,
}

impl View for TokenCache {
    type V = Map<Seq<u8>, CapV>;

    closed spec fn view(&self) -> Map<Seq<u8>, CapV> {
        self.entries@
    }
}

impl TokenCache {
    /// The map is in order, and every capability was read from a header with its digest.
    pub closed spec fn wf(&self) -> bool {
        self.entries.wf() && honest(self@)
    }

    /// Every capability that is kept was read from a header with its digest.
    pub proof fn law_kept_tokens_were_read(&self)
        requires
            self.wf(),
        ensures
            honest(self@),
    {
    }

    pub fn new() -> (c: TokenCache)
        ensures
            c.wf(),
            c@ == Map::<Seq<u8>, CapV>::empty(),
    {
        TokenCache { entries: crate::ordmap::OrdMap::new() }
    }

    /// The capability kept for a digest.
    pub fn get(&self, digest: &[u8; 32]) -> (r: Option<&Capability>)
        requires
            self.wf(),
        ensures
            match r {
                Some(c) => self@.dom().contains(digest@) && c@ == self@[digest@],
                None => !self@.dom().contains(digest@),
            },
    {
        self.entries.get(digest.as_slice())
    }

    /// Keep the capability of a digest.
    fn put(&mut self, digest: [u8; 32], cap: Capability)
        requires
            old(self).wf(),
            read_from(digest@, cap@),
        ensures
            final(self).wf(),
            final(self)@ == (if crate::ordmap::listed(old(self)@.dom()).len() >= TOKEN_CACHE_MAX {
                Map::<Seq<u8>, CapV>::empty()
            } else {
                old(self)@
            }).insert(digest@, cap@),
    {
        proof {
            self.entries.lemma_keys();
        }
        if self.entries.len() >= TOKEN_CACHE_MAX {
            self.entries = crate::ordmap::OrdMap::new();
        }
        self.entries.insert(vstd::slice::slice_to_vec(digest.as_slice()), cap);
    }

    /// The capability of a header: kept from before, or read and then kept. A header
    /// that is no capability is refused.
    pub fn lookup(&mut self, h: &str) -> (r: Result<Capability, String>)
        requires
            old(self).wf(),
        ensures
            final(self).wf(),
            final(self)@ == kept_tokens(old(self)@, h@),
            if old(self)@.dom().contains(token_id(h@)) {
                r matches Ok(c) && c@ == old(self)@[token_id(h@)]
            } else {
                match cap_of_header(h@) {
                    Ok(c) => r matches Ok(d) && d@ == c,
                    Err(f) => r matches Err(e) && e@ == f,
                }
            },
    {
        let digest = token_digest(h);
        if let Some(c) = self.get(&digest) {
            return Ok(c.clone());
        }
        match parse_cap_header(h) {
            Ok(cap) => {
                assert(token_id(h@) == digest@ && cap_of_header(h@) == Ok::<CapV, Seq<char>>(cap@));
                self.put(digest, cap.clone());
                Ok(cap)
            },
            Err(e) => Err(e),
        }
    }
}

/// Looking a header up keeps the cache honest.
pub proof fn law_tokens_stay_honest(m: Map<Seq<u8>, CapV>, h: Seq<char>)
    requires
        honest(m),
    ensures
        honest(kept_tokens(m, h)),
{
    let after = kept_tokens(m, h);
    assert forall|d: Seq<u8>| #[trigger] after.dom().contains(d) implies read_from(d, after[d]) by {
        if d == token_id(h) && !m.dom().contains(d) {
            assert(token_id(h) == d && cap_of_header(h) == Ok::<CapV, Seq<char>>(after[d]));
        } else {
            assert(m.dom().contains(d));
        }
    }
}

/// The URL of a scope spells it: the host, the tier, the namespace, and the prefix where
/// there is one, with slashes between them.
pub proof fn law_url_spells_the_scope(host: Seq<char>, ns: Seq<char>, prefix: Seq<char>)
    ensures
        (ScopeV { host, tier: Tier::L1, ns, prefix: None }).url() == "bmdb://"@ + host + "/l1/"@ + ns,
        (ScopeV { host, tier: Tier::L2, ns, prefix: None }).url() == "bmdb://"@ + host + "/l2/"@ + ns,
        (ScopeV { host, tier: Tier::L3, ns, prefix: None }).url() == "bmdb://"@ + host + "/l3/"@ + ns,
        (ScopeV { host, tier: Tier::L2, ns, prefix: Some(prefix) }).url() == "bmdb://"@ + host + "/l2/"@ + ns + seq!['/']
            + prefix,
{
    reveal_strlit("/");
    reveal_strlit("l1");
    reveal_strlit("l2");
    reveal_strlit("l3");
    reveal_strlit("/l1/");
    reveal_strlit("/l2/");
    reveal_strlit("/l3/");
    let none = Seq::<char>::empty();
    assert((ScopeV { host, tier: Tier::L1, ns, prefix: None }).url() =~= "bmdb://"@ + host + "/l1/"@ + ns);
    assert((ScopeV { host, tier: Tier::L2, ns, prefix: None }).url() =~= "bmdb://"@ + host + "/l2/"@ + ns);
    assert((ScopeV { host, tier: Tier::L3, ns, prefix: None }).url() =~= "bmdb://"@ + host + "/l3/"@ + ns);
    assert((ScopeV { host, tier: Tier::L2, ns, prefix: Some(prefix) }).url() =~= "bmdb://"@ + host + "/l2/"@ + ns + seq!['/']
        + prefix);
}

/// A header is `Bearer `, the mark of a token and the Base64 of a capability's JSON, for
/// URLs and without padding; anything else is none.
pub proof fn law_header_carries_a_token(t: Seq<char>, j: Seq<char>, h: Seq<char>)
    ensures
        cap_of_header("Bearer "@ + t) == cap_of_token(t),
        !("Bearer "@.is_prefix_of(h)) ==> cap_of_header(h) is Err,
        cap_of_token("bmdb-cap:"@ + util::b64_text(true, text::utf8(j))) == cap_of_json(json::json_read(j)),
        !("bmdb-cap:"@.is_prefix_of(t)) ==> cap_of_token(t) is Err,
{
    let b = "Bearer "@;
    let n = b.len() as int;
    assert((b + t).take(n) =~= b);
    assert((b + t).skip(n) =~= t);
    if h.len() >= n {
        assert(h.take(n) =~= h.subrange(0, n));
    }
    let m = "bmdb-cap:"@;
    let k = m.len() as int;
    let e = util::b64_text(true, text::utf8(j));
    assert((m + e).take(k) =~= m);
    assert((m + e).skip(k) =~= e);
    util::law_b64_round_trip(true, text::utf8(j));
    text::lemma_utf8_decodes(j);
    if t.len() >= k {
        assert(t.take(k) =~= t.subrange(0, k));
    }
}

} // verus!
