//! Root-key rotation: a fresh active key, with the predecessors kept valid or severed.
//!
//! A graceful rotation retires the old key: what it signed still counts. A dropping one
//! severs it: nothing that it signed counts any more.

use crate::caps;
use crate::caps::{CapV, Capability, KeyringV, RevokedV, RootKeyring};
use crate::clock;
use crate::json;
use crate::node::ident;
use crate::node::ident::{Keypair, PublicKey};
use crate::node::meta;
use crate::segments;
use crate::storage::disk;
use crate::storage::disk::{Disk, DiskV};
use crate::storage::model;
use crate::storage::model::{Step, StoreV};
use crate::storage::store::Store;
use crate::text;
use crate::util;
use vstd::prelude::*;

verus! {

/// What a rotation did.
pub struct RotateOutcome {
    pub old_root: PublicKey,
    pub new_root: PublicKey,
    /// Was the old key severed?
    pub dropped: bool,
    /// The re-issued admin token, where it was asked for.
    pub admin_cap: Option<String>,
    /// Why the admin token was not re-issued.
    pub admin_warning: Option<String>,
}

/// The metadata key of the retired root keys.
pub open spec fn chain_key() -> Seq<u8> {
    text::utf8("sys/root_chain"@)
}

/// The metadata key of the admin token.
pub open spec fn admin_key() -> Seq<u8> {
    text::utf8("sys/admin_cap"@)
}

/// The retired keys that a store knows.
pub open spec fn retired_in(s: StoreV) -> Seq<Seq<u8>> {
    match model::look(s.meta, chain_key()) {
        Some(b) => caps::chain_keys(b),
        None => Seq::empty(),
    }
}

/// The keys without one.
pub open spec fn without(ks: Seq<Seq<u8>>, k: Seq<u8>) -> Seq<Seq<u8>>
    decreases ks.len(),
{
    if ks.len() == 0 {
        Seq::empty()
    } else if ks.last() == k {
        without(ks.drop_last(), k)
    } else {
        without(ks.drop_last(), k).push(ks.last())
    }
}

/// The retired keys after a rotation away from `old_root`.
pub open spec fn retired_after(ks: Seq<Seq<u8>>, old_root: Seq<u8>, dropped: bool) -> Seq<Seq<u8>> {
    if dropped {
        without(ks, old_root)
    } else if ks.contains(old_root) {
        ks
    } else {
        ks.push(old_root)
    }
}

/// The store with a metadata value set, and a snapshot taken of it.
pub open spec fn kept(s: StoreV, key: Seq<u8>, value: Seq<u8>) -> Step<()> {
    disk::checkpointed(s.with_meta(s.meta.insert(key, value)).bumped(1))
}

/// The capability signed anew by another key, for that key.
pub open spec fn reissued(c: CapV, seed: Seq<u8>) -> CapV {
    let base = CapV { issuer: ident::public_of(seed), subject: ident::public_of(seed), ..c };
    CapV { sig: ident::signature_of(seed, caps::canonical(base)), ..base }
}

/// The token of a capability.
pub open spec fn token_of(c: CapV) -> Seq<char> {
    "bmdb-cap:"@ + util::b64_text(true, text::utf8(json::object_text(caps::cap_members(c))))
}

/// What re-issuing the admin token comes to: the new token, or why there is none.
pub enum AdminV {
    Token(Seq<char>),
    Warning(Seq<char>),
}

pub open spec fn admin_after(s: StoreV, seed: Seq<u8>) -> Result<AdminV, Seq<char>> {
    match model::look(s.meta, admin_key()) {
        None => Ok(AdminV::Warning("no sys/admin_cap found to re-key"@)),
        Some(v) => {
            let header = text::lossy_text(v);
            if !segments::starts(header, "bmdb-cap:"@) {
                Ok(AdminV::Warning("persisted admin cap is not a bmdb-cap token"@))
            } else {
                match caps::cap_of_token(header) {
                    Err(e) => Err(e),
                    Ok(c) => Ok(AdminV::Token(token_of(reissued(c, seed)))),
                }
            }
        },
    }
}

/// A store after a rotation, whether the new key takes over, and what came of the admin
/// token.
pub struct RotationV {
    pub store: StoreV,
    pub rotated: bool,
    pub result: Result<Option<AdminV>, Seq<char>>,
}

/// The chain of retired keys is kept first; from then on the new key takes over, even
/// where the admin token cannot be signed anew.
pub open spec fn rotation(s: StoreV, old_root: Seq<u8>, seed: Seq<u8>, dropped: bool, reissue: bool) -> RotationV {
    let chain = caps::chain_bytes(retired_after(retired_in(s), old_root, dropped));
    let one = kept(s, chain_key(), chain);
    match one.result {
        Err(e) => RotationV { store: one.store, rotated: false, result: Err("checkpoint: "@ + e.message()) },
        Ok(_) => if !reissue {
            RotationV { store: one.store, rotated: true, result: Ok(None) }
        } else {
            match admin_after(one.store, seed) {
                Err(e) => RotationV { store: one.store, rotated: true, result: Err(e) },
                Ok(AdminV::Warning(w)) => RotationV {
                    store: one.store,
                    rotated: true,
                    result: Ok(Some(AdminV::Warning(w))),
                },
                Ok(AdminV::Token(t)) => {
                    let two = kept(one.store, admin_key(), text::utf8(t));
                    RotationV {
                        store: two.store,
                        rotated: true,
                        result: match two.result {
                            Err(e) => Err("checkpoint admin: "@ + e.message()),
                            Ok(_) => Ok(Some(AdminV::Token(t))),
                        },
                    }
                },
            }
        },
    }
}

/// Is this the outcome of a rotation?
pub open spec fn is_outcome(
    r: Result<RotateOutcome, String>,
    want: Result<Option<AdminV>, Seq<char>>,
    old_root: Seq<u8>,
    seed: Seq<u8>,
    dropped: bool,
) -> bool {
    match want {
        Err(f) => r matches Err(e) && e@ == f,
        Ok(admin) => {
            &&& r matches Ok(out)
            &&& out.old_root@ == old_root
            &&& out.new_root@ == ident::public_of(seed)
            &&& out.dropped == dropped
            &&& match admin {
                None => out.admin_cap is None && out.admin_warning is None,
                Some(AdminV::Token(t)) => out.admin_cap is Some && out.admin_cap->0@ == t && out.admin_warning is None,
                Some(AdminV::Warning(w)) => out.admin_cap is None && out.admin_warning is Some
                    && out.admin_warning->0@ == w,
            }
        },
    }
}

/// The retired keys after a rotation.
fn retire(keys: Vec<PublicKey>, old_root: PublicKey, dropped: bool) -> (r: Vec<PublicKey>)
    ensures
        caps::key_views(r@) == retired_after(caps::key_views(keys@), old_root@, dropped),
{
    let ghost all = caps::key_views(keys@);
    let mut kept: Vec<PublicKey> = Vec::new();
    let mut found = false;
    let mut i: usize = 0;
    proof {
        assert(all.take(0) =~= Seq::empty());
        assert(caps::key_views(kept@) =~= without(all.take(0), old_root@));
    }
    while i < keys.len()
        invariant
            i <= keys@.len(),
            all == caps::key_views(keys@),
            caps::key_views(kept@) == without(all.take(i as int), old_root@),
            found == all.take(i as int).contains(old_root@),
        decreases keys@.len() - i,
    {
        let ghost had = caps::key_views(kept@);
        proof {
            let t = all.take(i as int);
            let u = all.take(i + 1);
            assert(u.drop_last() =~= t);
            assert(u.last() == keys@[i as int]@);
            assert(u.contains(old_root@) <==> t.contains(old_root@) || u.last() == old_root@) by {
                if t.contains(old_root@) {
                    let j = t.index_of(old_root@);
                    assert(u[j] == old_root@);
                }
                if u.last() == old_root@ {
                    assert(u[i as int] == old_root@);
                }
                if u.contains(old_root@) && u.last() != old_root@ {
                    let j = u.index_of(old_root@);
                    assert(t[j] == old_root@);
                }
            }
        }
        if keys[i].same(&old_root) {
            found = true;
        } else {
            kept.push(keys[i]);
            assert(caps::key_views(kept@) =~= had.push(keys@[i as int]@));
        }
        i += 1;
    }
    assert(all.take(i as int) =~= all);
    if dropped {
        return kept;
    }
    let mut keys = keys;
    if !found {
        keys.push(old_root);
        assert(caps::key_views(keys@) =~= all.push(old_root@));
    }
    keys
}

/// The token of the admin capability in a store, signed anew by another key.
fn rekey_admin(store: &Store, new_kp: &Keypair) -> (r: Result<Result<String, String>, String>)
    requires
        store.wf(),
    ensures
        match admin_after(store@, new_kp.seed()) {
            Err(f) => r matches Err(e) && e@ == f,
            Ok(AdminV::Warning(w)) => r matches Ok(Err(m)) && m@ == w,
            Ok(AdminV::Token(t)) => r matches Ok(Ok(h)) && h@ == t,
        },
{
    let header = match store.meta_get("sys/admin_cap") {
        None => {
            return Ok(Err(text::copy_text("no sys/admin_cap found to re-key")));
        },
        Some(v) => text::lossy_string(v.as_slice()),
    };
    if segments::strip_prefix(header.as_str(), "bmdb-cap:").is_none() {
        return Ok(Err(text::copy_text("persisted admin cap is not a bmdb-cap token")));
    }
    let old = match Capability::from_token(header.as_str()) {
        Ok(c) => c,
        Err(e) => {
            return Err(e);
        },
    };
    let ghost was = old@;
    let fresh = Capability::sign_for(
        old.scope,
        old.perms,
        old.expiry_ms,
        old.nonce,
        new_kp.public(),
        new_kp,
    );
    proof {
        let base = CapV {
            issuer: ident::public_of(new_kp.seed()),
            subject: ident::public_of(new_kp.seed()),
            ..was
        };
        assert(caps::sign_members(fresh@) =~= caps::sign_members(base));
        assert(fresh@ =~= reissued(was, new_kp.seed()));
    }
    Ok(Ok(fresh.to_header()))
}

/// Rotate to a given key: the chain of retired keys is kept first, then the admin token
/// is signed anew where that is asked. Whether the new key takes over comes back too.
pub fn rotate_to(
    kp: &Keypair,
    new_kp: &Keypair,
    store: &mut Store,
    drop_predecessor: bool,
    reissue_admin: bool,
) -> (r: (bool, Result<RotateOutcome, String>))
    requires
        old(store).wf(),
    ensures
        final(store).wf(),
        final(store).is_durable() == old(store).is_durable(),
        ({
            let old_root = ident::public_of(kp.seed());
            let want = rotation(old(store)@, old_root, new_kp.seed(), drop_predecessor, reissue_admin);
            &&& final(store)@ == want.store
            &&& r.0 == want.rotated
            &&& is_outcome(r.1, want.result, old_root, new_kp.seed(), drop_predecessor)
        }),
{
    let old_root = kp.public();
    let new_root = new_kp.public();
    let keys = match store.meta_get("sys/root_chain") {
        Some(v) => RootKeyring::parse_chain(v.as_slice()),
        None => {
            let none: Vec<PublicKey> = Vec::new();
            assert(caps::key_views(none@) =~= Seq::empty());
            none
        },
    };
    let retired = retire(keys, old_root, drop_predecessor);
    let ring = RootKeyring { active: new_root, retired };
    store.meta_set("sys/root_chain", ring.to_chain_bytes());
    match store.checkpoint() {
        Ok(_) => {},
        Err(e) => {
            return (false, Err(text::join2("checkpoint: ", e.message().as_str())));
        },
    }
    let mut admin_cap: Option<String> = None;
    let mut admin_warning: Option<String> = None;
    if reissue_admin {
        match rekey_admin(store, new_kp) {
            Err(e) => {
                return (true, Err(e));
            },
            Ok(Err(w)) => {
                admin_warning = Some(w);
            },
            Ok(Ok(h)) => {
                store.meta_set("sys/admin_cap", text::bytes_of(h.as_str()));
                match store.checkpoint() {
                    Ok(_) => {},
                    Err(e) => {
                        return (true, Err(text::join2("checkpoint admin: ", e.message().as_str())));
                    },
                }
                admin_cap = Some(h);
            },
        }
    }
    (true, Ok(RotateOutcome { old_root, new_root, dropped: drop_predecessor, admin_cap, admin_warning }))
}

/// A rotation of a stopped node: what came of it, the new key file and the new directory.
/// The new key takes over even where the outcome is an error.
pub struct Rotated {
    pub outcome: Result<RotateOutcome, String>,
    pub key_file: Vec<u8>,
    pub disk: Disk,
}

/// Is this what a rotation of a directory gives, opened at a time and with a fresh key of
/// the given seed, or with none where the system gave no randomness?
pub open spec fn rotates_to(
    r: Result<Rotated, String>,
    d: DiskV,
    old_root: Seq<u8>,
    dropped: bool,
    reissue: bool,
    now_ms: u64,
    seed: Option<Seq<u8>>,
) -> bool {
    match disk::opened(d, now_ms) {
        Err(f) => r matches Err(e) && e@ == "open store: "@ + f.message(),
        Ok(s) => match seed {
            None => r matches Err(e) && e@ == "os rng failure"@,
            Some(seed) => {
                let want = rotation(s, old_root, seed, dropped, reissue);
                if want.rotated {
                    &&& r matches Ok(out)
                    &&& out.disk@ == disk::disk_of(want.store)
                    &&& out.key_file@ == meta::file_of(seed)
                    &&& is_outcome(out.outcome, want.result, old_root, seed, dropped)
                } else {
                    r matches Err(e) && want.result == Err::<Option<AdminV>, Seq<char>>(e@)
                }
            },
        },
    }
}

/// Rotate the root key of a stopped node to a fresh one, given its key file and its
/// directory. The directory is to be written before the key file: a crash in between
/// leaves the old key active with one more retired entry.
pub fn rotate_root(
    path: &str,
    key_file: &[u8],
    disk: &Disk,
    drop_predecessor: bool,
    reissue_admin: bool,
) -> (r: Result<Rotated, String>)
    ensures
        !meta::is_key_file(key_file@) ==> (r matches Err(e) && e@ == text::debug_text(path@)
            + " is not a bunnymeshdb meta.bin"@),
        meta::is_key_file(key_file@) ==> exists|now_ms: u64, seed: Option<Seq<u8>>|
            #[trigger] rotates_to(
                r,
                disk@,
                ident::public_of(key_file@.skip(40)),
                drop_predecessor,
                reissue_admin,
                now_ms,
                seed,
            ),
{
    let kp = match meta::load(path, key_file) {
        Ok(k) => k,
        Err(e) => {
            return Err(e);
        },
    };
    let ghost old_root = ident::public_of(kp.seed());
    let now_ms = clock::wall_ms();
    let mut store = match Store::open_at(disk, false, now_ms) {
        Ok(s) => s,
        Err(e) => {
            let r: Result<Rotated, String> = Err(text::join2("open store: ", e.message().as_str()));
            assert(rotates_to(r, disk@, old_root, drop_predecessor, reissue_admin, now_ms, None));
            return r;
        },
    };
    let new_kp = match Keypair::generate() {
        Some(k) => k,
        None => {
            let r: Result<Rotated, String> = Err(text::copy_text("os rng failure"));
            assert(rotates_to(r, disk@, old_root, drop_predecessor, reissue_admin, now_ms, None));
            return r;
        },
    };
    let (rotated, outcome) = rotate_to(&kp, &new_kp, &mut store, drop_predecessor, reissue_admin);
    let r: Result<Rotated, String> = if rotated {
        Ok(Rotated { outcome, key_file: meta::write(&new_kp), disk: store.disk() })
    } else {
        match outcome {
            Err(e) => Err(e),
            Ok(_) => Err(String::new()),
        }
    };
    assert(rotates_to(
        r,
        disk@,
        old_root,
        drop_predecessor,
        reissue_admin,
        now_ms,
        Some(new_kp.seed()),
    ));
    r
}

// ---------- laws ----------

proof fn lemma_without(ks: Seq<Seq<u8>>, k: Seq<u8>)
    ensures
        !without(ks, k).contains(k),
        forall|q: Seq<u8>| #[trigger] without(ks, k).contains(q) ==> ks.contains(q),
        forall|q: Seq<u8>| q != k && ks.contains(q) ==> #[trigger] without(ks, k).contains(q),
    decreases ks.len(),
{
    if ks.len() > 0 {
        let front = ks.drop_last();
        let last = ks.last();
        lemma_without(front, k);
        let a = without(front, k);
        let b = without(ks, k);
        assert forall|q: Seq<u8>| b.contains(q) <==> a.contains(q) || (q == last && last != k) by {
            if last != k {
                assert(b == a.push(last));
                if a.contains(q) {
                    let i = a.index_of(q);
                    assert(b[i] == q);
                }
                if q == last {
                    assert(b[a.len() as int] == q);
                }
                if b.contains(q) && q != last {
                    let i = b.index_of(q);
                    assert(a[i] == q);
                }
            }
        }
        assert forall|q: Seq<u8>| ks.contains(q) <==> front.contains(q) || q == last by {
            if front.contains(q) {
                let i = front.index_of(q);
                assert(ks[i] == q);
            }
            if q == last {
                assert(ks[ks.len() - 1] == q);
            }
            if ks.contains(q) && q != last {
                let i = ks.index_of(q);
                assert(front[i] == q);
            }
        }
    }
}

/// After a graceful rotation the old key's signatures still count, and so does every
/// predecessor's.
pub proof fn law_graceful_keeps_predecessors(
    ks: Seq<Seq<u8>>,
    old_root: Seq<u8>,
    new_root: Seq<u8>,
    key: Seq<u8>,
)
    requires
        (KeyringV { active: old_root, retired: ks }).accepts(key),
    ensures
        (KeyringV { active: new_root, retired: retired_after(ks, old_root, false) }).accepts(key),
{
    let r = retired_after(ks, old_root, false);
    if ks.contains(key) {
        let i = ks.index_of(key);
        assert(r[i] == key);
    }
    if key == old_root && !ks.contains(old_root) {
        assert(r[ks.len() as int] == key);
    }
}

/// After a dropping rotation the old key's signatures no longer count; those of the
/// other predecessors do.
pub proof fn law_drop_severs_old_key(ks: Seq<Seq<u8>>, old_root: Seq<u8>, new_root: Seq<u8>, key: Seq<u8>)
    requires
        new_root != old_root,
    ensures
        ({
            let ring = KeyringV { active: new_root, retired: retired_after(ks, old_root, true) };
            &&& !ring.accepts(old_root)
            &&& key != old_root && ks.contains(key) ==> ring.accepts(key)
        }),
{
    lemma_without(ks, old_root);
}

/// A capability that the old key signed counts after a graceful rotation just as it did
/// before, and never after a dropping one.
pub proof fn law_rotation_and_old_caps(
    c: CapV,
    ks: Seq<Seq<u8>>,
    old_root: Seq<u8>,
    new_root: Seq<u8>,
    principal: Seq<u8>,
    rev: RevokedV,
    now_ms: u64,
)
    requires
        c.issuer == old_root,
        new_root != old_root,
    ensures
        caps::cap_check(
            c,
            KeyringV { active: new_root, retired: retired_after(ks, old_root, false) },
            principal,
            rev,
            now_ms,
            false,
        ) == caps::cap_check(
            c,
            KeyringV { active: old_root, retired: ks },
            principal,
            rev,
            now_ms,
            false,
        ),
        caps::cap_check(
            c,
            KeyringV { active: new_root, retired: retired_after(ks, old_root, true) },
            principal,
            rev,
            now_ms,
            false,
        ) == Err::<(), caps::CapError>(caps::CapError::BadIssuer),
{
    law_graceful_keeps_predecessors(ks, old_root, new_root, old_root);
    law_drop_severs_old_key(ks, old_root, new_root, old_root);
}

/// A rotation is kept: afterwards the store knows as retired just the keys that it knew
/// before and the one that was rotated away from, or, where that one is dropped, those
/// it knew but for it.
pub proof fn law_rotation_is_kept(s: StoreV, old_root: Seq<u8>, seed: Seq<u8>, dropped: bool, key: Seq<u8>)
    requires
        old_root.len() == 32,
        rotation(s, old_root, seed, dropped, false).rotated,
    ensures
        ({
            let t = rotation(s, old_root, seed, dropped, false).store;
            retired_in(t).contains(key) <==> if dropped {
                key != old_root && retired_in(s).contains(key)
            } else {
                key == old_root || retired_in(s).contains(key)
            }
        }),
{
    let ks = retired_in(s);
    assert forall|i: int| 0 <= i < ks.len() implies (#[trigger] ks[i]).len() == 32 by {}
    lemma_without(ks, old_root);
    let r = retired_after(ks, old_root, dropped);
    assert forall|k: Seq<u8>| #[trigger] r.contains(k) <==> (if dropped {
        k != old_root && ks.contains(k)
    } else {
        k == old_root || ks.contains(k)
    }) by {
        if !dropped && !ks.contains(old_root) {
            if ks.contains(k) {
                assert(r[ks.index_of(k)] == k);
            }
            if k == old_root {
                assert(r[ks.len() as int] == k);
            }
        }
    }
    assert forall|i: int| 0 <= i < r.len() implies (#[trigger] r[i]).len() == 32 by {
        assert(r.contains(r[i]));
        if ks.contains(r[i]) {
            assert(ks[ks.index_of(r[i])].len() == 32);
        }
    }
    caps::law_chain_round_trip(r);
}

/// The admin token that a rotation issues anew says what the old one said, in the name
/// of the new key.
pub proof fn law_admin_token_is_signed_anew(c: CapV, seed: Seq<u8>)
    ensures
        ({
            let d = reissued(c, seed);
            &&& d.scope == c.scope
            &&& d.perms == c.perms
            &&& d.expiry_ms == c.expiry_ms
            &&& d.nonce == c.nonce
            &&& d.issuer == ident::public_of(seed)
            &&& d.subject == ident::public_of(seed)
            &&& d.sig == ident::signature_of(seed, caps::canonical(d))
        }),
{
    let base = CapV { issuer: ident::public_of(seed), subject: ident::public_of(seed), ..c };
    assert(caps::sign_members(base) =~= caps::sign_members(reissued(c, seed)));
}

} // verus!
