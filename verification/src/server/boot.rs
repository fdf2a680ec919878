//! What a daemon starts with: its key, its admin token, what was revoked.

use crate::caps;
use crate::caps::{CapV, Capability, KeyringV, PermSet, RevocationSet, RevokedV, RootKeyring, Scope, Tier, TokenCache};
use crate::hexes;
use crate::json;
use crate::node::hlc;
use crate::node::hlc::Hlc;
use crate::node::ident;
use crate::node::ident::{Keypair, PublicKey};
use crate::node::meta;
use crate::node::rotate;
use crate::ns;
use crate::ns::CapCache;
use crate::segments;
use crate::server::admin;
use crate::server::state;
use crate::server::state::{ApiV, AppState};
use crate::storage::model;
use crate::storage::model::StoreV;
use crate::storage::store::Store;
use crate::text;
use vstd::prelude::*;

verus! {

/// The key of a data directory: from its key file, or a fresh one with the file to
/// keep where there is none. A file that holds no key is never replaced.
pub fn boot_keys(dir: &str, path: &str, file: Option<&[u8]>) -> (r: Result<(Keypair, Option<Vec<u8>>), String>)
    ensures
        match file {
            Some(b) => if meta::is_key_file(b@) {
                r matches Ok((kp, None)) && kp.seed() == b@.skip(40)
            } else {
                r matches Err(e) && e@ == text::debug_text(path@) + " is not a bunnymeshdb meta.bin"@
                    + " (meta.bin exists but is unreadable; refusing to overwrite)"@
            },
            None => match r {
                Ok((kp, made)) => made matches Some(bytes) && bytes@ == meta::file_of(kp.seed()),
                Err(e) => e@ == "init data dir: os rng failure"@,
            },
        },
{
    match file {
        Some(b) => match meta::load(path, b) {
            Ok(kp) => Ok((kp, None)),
            Err(e) => Err(
                text::join2(e.as_str(), " (meta.bin exists but is unreadable; refusing to overwrite)"),
            ),
        },
        None => match meta::init(dir, false) {
            Ok((kp, bytes)) => Ok((kp, Some(bytes))),
            Err(e) => {
                proof {
                    reveal_strlit("init data dir: ");
                    reveal_strlit("os rng failure");
                    reveal_strlit("init data dir: os rng failure");
                    assert("init data dir: "@ + "os rng failure"@ =~= "init data dir: os rng failure"@);
                }
                Err(text::join2("init data dir: ", e.as_str()))
            },
        },
    }
}

// ---------- the admin token ----------

/// An admin capability of a host for its own root key.
pub open spec fn is_admin_cap(c: CapV, host: Seq<char>, seed: Seq<u8>, nonce: u64) -> bool {
    &&& c == (CapV {
        scope: state::l1_scope_of(host),
        perms: 4,
        expiry_ms: None,
        nonce,
        issuer: ident::public_of(seed),
        subject: ident::public_of(seed),
        sig: ident::signature_of(seed, caps::canonical(c)),
    })
    &&& ident::verifies(c.issuer, caps::canonical(c), c.sig)
}

/// The store with a fresh admin token.
pub open spec fn with_admin(s: StoreV, token: Seq<char>) -> StoreV {
    s.with_meta(s.meta.insert(rotate::admin_key(), text::utf8(token))).bumped(1)
}

/// Is this the admin token, and the store that keeps it? One that is kept stays; else
/// one is signed.
#[verifier::opaque]
pub open spec fn admin_of(s: StoreV, host: Seq<char>, seed: Seq<u8>, nonce: u64, token: Seq<char>, after: StoreV) -> bool {
    match model::look(s.meta, rotate::admin_key()) {
        Some(v) => token == text::lossy_text(v) && after == s,
        None => exists|c: CapV| #[trigger]
            is_admin_cap(c, host, seed, nonce) && token == rotate::token_of(c) && after == with_admin(s, token),
    }
}

/// Is this the admin token for some nonce, and the store that keeps it?
pub open spec fn admin_drawn(s: StoreV, host: Seq<char>, seed: Seq<u8>, token: Seq<char>, after: StoreV) -> bool {
    exists|nonce: u64| #[trigger] admin_of(s, host, seed, nonce, token, after)
}

/// The admin token of a store; one is signed with the nonce and kept where there is none.
pub fn admin_token_with(store: &mut Store, kp: &Keypair, host: &str, nonce: u64) -> (t: String)
    requires
        old(store).wf(),
    ensures
        final(store).wf(),
        final(store).is_durable() == old(store).is_durable(),
        admin_of(old(store)@, host@, kp.seed(), nonce, t@, final(store)@),
{
    proof {
        reveal(admin_of);
    }
    match store.meta_get("sys/admin_cap") {
        Some(v) => {
            return text::lossy_string(v.as_slice());
        },
        None => {},
    }
    let scope = Scope {
        host: text::copy_text(host),
        tier: Tier::L1,
        ns: text::copy_text("*"),
        prefix: None,
    };
    let cap = Capability::sign(scope, PermSet::admin(), None, nonce, kp);
    let token = cap.to_header();
    store.meta_set("sys/admin_cap", text::bytes_of(token.as_str()));
    assert(is_admin_cap(cap@, host@, kp.seed(), nonce));
    token
}

/// The admin token of a store. Its nonce is drawn at random; without randomness, and
/// without a token that is kept, there is none.
pub fn admin_token(store: &mut Store, kp: &Keypair, host: &str) -> (t: Option<String>)
    requires
        old(store).wf(),
    ensures
        final(store).wf(),
        final(store).is_durable() == old(store).is_durable(),
        t matches Some(token) ==> admin_drawn(old(store)@, host@, kp.seed(), token@, final(store)@),
        t is None ==> model::look(old(store)@.meta, rotate::admin_key()) is None,
        t is None ==> final(store)@ == old(store)@,
{
    let kept = store.meta_get("sys/admin_cap").is_some();
    let nonce = if kept {
        Some(0u64)
    } else {
        ident::random_nonce()
    };
    match nonce {
        None => {
            assert(model::look(store@.meta, rotate::admin_key()) is None);
            None
        },
        Some(n) => {
            let ghost before = store@;
            let token = admin_token_with(store, kp, host, n);
            assert(admin_of(before, host@, kp.seed(), n, token@, store@));
            assert(admin_drawn(before, host@, kp.seed(), token@, store@));
            Some(token)
        },
    }
}

// ---------- what was revoked ----------

/// The scope and the key that a line of the ledger revokes.
pub open spec fn revoked_by(line: Seq<char>) -> Option<(Seq<char>, Seq<char>)> {
    let l = text::trimmed(line);
    let i = segments::find(l, '\t');
    if i >= l.len() {
        None
    } else {
        match caps::scope_of(l.take(i)) {
            Err(_) => None,
            Ok(scope) => if ident::is_key_text(l.skip(i + 1)) {
                Some((scope.url(), hexes::hex_text(hexes::hex_bytes(l.skip(i + 1)))))
            } else {
                None
            },
        }
    }
}

/// What the lines of the ledger revoke; lines that cannot be read are passed over.
pub open spec fn revoked_in(lines: Seq<Seq<char>>) -> Set<(Seq<char>, Seq<char>)>
    decreases lines.len(),
{
    if lines.len() == 0 {
        Set::empty()
    } else {
        let before = revoked_in(lines.drop_last());
        match revoked_by(lines.last()) {
            Some(p) => before.insert(p),
            None => before,
        }
    }
}

/// What a store's ledger revokes.
pub open spec fn revocations_of(s: StoreV) -> RevokedV {
    RevokedV {
        pairs: revoked_in(segments::split(admin::ledger_text(s, "sys/revocations"@), '\n')),
        nonces: Set::empty(),
    }
}

/// The scope and the key of a line.
fn read_line(line: &str) -> (r: Option<(Scope, PublicKey)>)
    ensures
        match revoked_by(line@) {
            Some(p) => r matches Some((s, k)) && s@.url() == p.0 && hexes::hex_text(k@) == p.1,
            None => r is None,
        },
{
    let l = text::trim(line);
    let c = text::chars_of(l.as_str());
    let mut i: usize = 0;
    while i < c.len() && c[i] != '\t'
        invariant
            i <= c@.len(),
            forall|j: int| 0 <= j < i ==> c@[j] != '\t',
        decreases c@.len() - i,
    {
        i += 1;
    }
    proof {
        lemma_find(c@, '\t', i as int);
    }
    if i == c.len() {
        return None;
    }
    let head = text::string_of(vstd::slice::slice_subrange(c.as_slice(), 0, i));
    let tail = text::string_of(vstd::slice::slice_subrange(c.as_slice(), i + 1, c.len()));
    assert(head@ =~= l@.take(i as int));
    assert(tail@ =~= l@.skip(i + 1));
    match Scope::parse(head.as_str()) {
        Err(_) => None,
        Ok(scope) => match PublicKey::from_hex(tail.as_str()) {
            Err(_) => None,
            Ok(k) => Some((scope, k)),
        },
    }
}

/// The first place of a character is where it was found.
proof fn lemma_find(s: Seq<char>, c: char, i: int)
    requires
        0 <= i <= s.len(),
        forall|j: int| 0 <= j < i ==> s[j] != c,
        i < s.len() ==> s[i] == c,
    ensures
        segments::find(s, c) == i,
    decreases s.len(),
{
    if i > 0 {
        let t = s.drop_first();
        assert forall|j: int| 0 <= j < i - 1 implies t[j] != c by {
            assert(t[j] == s[j + 1]);
        }
        lemma_find(t, c, i - 1);
    }
}

/// What a store's ledger revokes.
pub fn load_revocations(store: &Store) -> (r: RevocationSet)
    requires
        store.wf(),
    ensures
        r@ == revocations_of(store@),
{
    let mut r = RevocationSet::new();
    let t = match store.meta_get("sys/revocations") {
        Some(v) => text::lossy_string(v.as_slice()),
        None => String::new(),
    };
    assert(t@ =~= admin::ledger_text(store@, "sys/revocations"@));
    let lines = segments::split_text(t.as_str(), '\n');
    let ghost all = json::texts(lines@);
    let mut i: usize = 0;
    assert(all.take(0) =~= Seq::empty());
    while i < lines.len()
        invariant
            i <= lines@.len(),
            all == json::texts(lines@),
            r@.pairs == revoked_in(all.take(i as int)),
            r@.nonces == Set::<u64>::empty(),
        decreases lines@.len() - i,
    {
        proof {
            assert(all.take(i + 1).drop_last() =~= all.take(i as int));
            assert(all.take(i + 1).last() == lines@[i as int]@);
        }
        match read_line(lines[i].as_str()) {
            Some((scope, k)) => {
                r.revoke_principal(&scope, k.to_hex().as_str());
            },
            None => {},
        }
        i += 1;
    }
    assert(all.take(i as int) =~= all);
    r
}

/// The keys whose signatures count: the present root key and those it took over from.
pub fn load_keyring(store: &Store, root: PublicKey) -> (r: RootKeyring)
    requires
        store.wf(),
    ensures
        r@ == (KeyringV { active: root@, retired: rotate::retired_in(store@) }),
{
    match store.meta_get("sys/root_chain") {
        Some(b) => RootKeyring { active: root, retired: RootKeyring::parse_chain(b.as_slice()) },
        None => RootKeyring::current(root),
    }
}

/// The state of the API over a store.
pub fn start(store: Store, kp: Keypair, host: &str, quota: u64) -> (a: AppState)
    requires
        store.wf(),
    ensures
        a.wf(),
        a@ == (ApiV {
            store: store@,
            root: ident::public_of(kp.seed()),
            seed: kp.seed(),
            keys: KeyringV { active: ident::public_of(kp.seed()), retired: rotate::retired_in(store@) },
            rev: revocations_of(store@),
            host: host@,
            quota,
            epoch: 0,
            verdicts: ns::no_verdicts(),
            tokens: Map::empty(),
            clock: 0,
        }),
{
    let root = kp.public();
    let keyring = load_keyring(&store, root);
    let revocations = load_revocations(&store);
    let cap_cache = CapCache::new();
    let clock = Hlc::from(0u64);
    proof {
        assert(cap_cache@ =~= ns::no_verdicts());
        hlc::law_number_round_trip(0, clock);
    }
    AppState {
        store,
        root,
        kp,
        keyring,
        revocations,
        host_name: text::copy_text(host),
        default_quota: quota,
        rev_epoch: 0,
        cap_cache,
        token_cache: TokenCache::new(),
        clock,
    }
}

// ---------- laws ----------

/// A revocation outlives a restart: the line that notes it reads back as what it revokes.
pub proof fn law_noted_revocation_reads_back(scope: caps::ScopeV, key: PublicKey)
    requires
        scope.plain(),
        !scope.url().contains('\t'),
        !text::is_white(scope.url()[0]),
    ensures
        revoked_by(scope.url() + "\t"@ + hexes::hex_text(key@)) == Some((scope.url(), hexes::hex_text(key@))),
{
    let url = scope.url();
    let hex = hexes::hex_text(key@);
    let line = url + "\t"@ + hex;
    key.lemma_len();
    hexes::law_hex_round_trip(key@);
    reveal_strlit("\t");
    caps::law_scope_url_round_trip(scope);
    assert(url.len() > 0) by {
        reveal_strlit("bmdb://");
    }
    assert(line[0] == url[0]);
    assert(text::trimmed_front(line) == line);
    let last = line.last();
    assert(last == hex[63]);
    assert(hexes::is_hex_char(hex[63]));
    assert(!text::is_white(last));
    assert(text::trimmed(line) == line);
    assert forall|j: int| 0 <= j < url.len() implies line[j] != '\t' by {
        assert(line[j] == url[j]);
    }
    lemma_find(line, '\t', url.len() as int);
    assert(line.take(url.len() as int) =~= url);
    assert(line.skip((url.len() + 1) as int) =~= hex);
}

} // verus!
