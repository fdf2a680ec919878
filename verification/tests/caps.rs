//! Capabilities.

use bunnymeshdb::caps::{
    parse_cap_header, token_digest, CapError, Capability, PermSet, RevocationSet, RootKeyring, Scope, Tier, TokenCache,
};
use bunnymeshdb::clock::wall_ms;
use bunnymeshdb::node::ident::{Keypair, PublicKey};

fn now_ms() -> u64 {
    wall_ms()
}

fn ring(kp: &Keypair) -> RootKeyring {
    RootKeyring::current(kp.public())
}

#[test]
fn scope_url_roundtrip() {
    let s = Scope::parse("bmdb://api.bunnymeshdb.test.com/l2/photos").unwrap();
    assert_eq!(s.tier, Tier::L2);
    assert_eq!(s.ns, "photos");
    assert_eq!(s.prefix, None);
    assert_eq!(s.to_url(), "bmdb://api.bunnymeshdb.test.com/l2/photos");

    let s2 = Scope::parse("bmdb://h/l3/u/deadbeef/fs/a/b").unwrap();
    assert_eq!(s2.tier, Tier::L3);
    assert_eq!(s2.ns, "u/deadbeef");
    assert_eq!(s2.prefix, Some("fs/a/b".into()));

    assert!(Scope::parse("http://x/l2/n").is_err());
    assert!(Scope::parse("bmdb:///l2/n").is_err());
    assert!(Scope::parse("bmdb://h/l2").is_err());
    assert!(Scope::parse("bmdb://h/l9/n").is_err());

    let base = Scope::parse("bmdb://h/l2/n").unwrap();
    let pref = Scope::parse("bmdb://h/l2/n/a/b").unwrap();
    assert!(base.covers(&pref));
    assert!(!pref.covers(&base));
    assert!(base.covers(&base));
}

#[test]
fn caps_sign_verify_roundtrip() {
    let root = Keypair::generate().unwrap();
    let scope = Scope::parse("bmdb://api.test/l2/photos/a").unwrap();
    let cap = Capability::sign(scope, PermSet::read().union(PermSet::write()), Some(now_ms() + 60_000), 42, &root);
    let rev = RevocationSet::new();
    assert!(cap.verify(&ring(&root), &root.public(), &rev, now_ms()).is_ok());
    let j = cap.to_json();
    let cap2 = Capability::from_json(&j).unwrap();
    assert_eq!(cap, cap2);
    assert!(cap2.verify(&ring(&root), &root.public(), &rev, now_ms()).is_ok());
    assert!(cap.to_header().starts_with("bmdb-cap:"));
}

#[test]
fn wrong_issuer_fails() {
    let root = Keypair::generate().unwrap();
    let other = Keypair::generate().unwrap();
    let cap = Capability::sign(
        Scope::parse("bmdb://h/l2/n").unwrap(),
        PermSet::read(),
        Some(now_ms() + 60_000),
        1,
        &other,
    );
    assert_eq!(
        cap.verify(&ring(&root), &other.public(), &RevocationSet::new(), now_ms()),
        Err(CapError::BadIssuer)
    );
    assert!(cap.verify(&ring(&other), &other.public(), &RevocationSet::new(), now_ms()).is_ok());
}

#[test]
fn tampered_scope_fails() {
    let root = Keypair::generate().unwrap();
    let cap = Capability::sign(
        Scope::parse("bmdb://h/l2/n").unwrap(),
        PermSet::read(),
        Some(now_ms() + 60_000),
        1,
        &root,
    );
    let mut tampered = cap.clone();
    tampered.scope = Scope::parse("bmdb://h/l2/other").unwrap();
    assert_eq!(
        tampered.verify(&ring(&root), &root.public(), &RevocationSet::new(), now_ms()),
        Err(CapError::BadSig)
    );
    let mut tampered2 = cap.clone();
    tampered2.perms = PermSet::write();
    assert_eq!(
        tampered2.verify(&ring(&root), &root.public(), &RevocationSet::new(), now_ms()),
        Err(CapError::BadSig)
    );
}

#[test]
fn expired_fails() {
    let root = Keypair::generate().unwrap();
    let cap = Capability::sign(
        Scope::parse("bmdb://h/l2/n").unwrap(),
        PermSet::read(),
        Some(now_ms() - 1000),
        7,
        &root,
    );
    assert_eq!(
        cap.verify(&ring(&root), &root.public(), &RevocationSet::new(), now_ms()),
        Err(CapError::Expired)
    );
}

#[test]
fn revoked_fails() {
    let root = Keypair::generate().unwrap();
    let principal = Keypair::generate().unwrap();
    let scope = Scope::parse("bmdb://h/l2/n").unwrap();
    let cap = Capability::sign_for(scope.clone(), PermSet::read(), None, 99, principal.public(), &root);
    let mut rev = RevocationSet::new();
    assert!(cap.verify(&ring(&root), &principal.public(), &rev, now_ms()).is_ok());
    rev.revoke_principal(&scope, &principal.public().to_hex());
    assert_eq!(
        cap.verify(&ring(&root), &principal.public(), &rev, now_ms()),
        Err(CapError::Revoked)
    );
    rev = RevocationSet::new();
    rev.revoke_nonce(99);
    assert_eq!(
        cap.verify(&ring(&root), &principal.public(), &rev, now_ms()),
        Err(CapError::Revoked)
    );
}

#[test]
fn tampered_sig_fails() {
    let root = Keypair::generate().unwrap();
    let cap = Capability::sign(
        Scope::parse("bmdb://h/l2/n").unwrap(),
        PermSet::read(),
        None,
        5,
        &root,
    );
    let mut bad = cap.clone();
    bad.sig[0] ^= 0x01;
    assert_eq!(
        bad.verify(&ring(&root), &root.public(), &RevocationSet::new(), now_ms()),
        Err(CapError::BadSig)
    );
}

#[test]
fn malformed_json_fails() {
    assert!(Capability::from_json("not json").is_err());
    assert!(Capability::from_json("{}").is_err());
    assert!(Capability::from_json("{\"bogus\":1}").is_err());
}

#[test]
fn perm_names_roundtrip() {
    let p = PermSet::read().union(PermSet::admin());
    assert_eq!(p.names(), vec!["read".to_string(), "admin".to_string()]);
    assert_eq!(PermSet::parse_list(&p.names()), Ok(p));
    assert_eq!(PermSet::parse_list(&vec!["x".to_string()]), Err("unknown perm \"x\"".to_string()));
    assert!(p.contains(PermSet::read()));
    assert!(!p.contains(PermSet::write()));
}

#[test]
fn retired_keys_still_issue() {
    let a = Keypair::from_seed([1; 32]);
    let b = Keypair::from_seed([2; 32]);
    let kr = RootKeyring { active: a.public(), retired: vec![b.public()] };
    assert!(kr.accepts_issuer(&b.public()));
    let chain = kr.to_chain_bytes();
    assert_eq!(RootKeyring::parse_chain(&chain), vec![b.public()]);
    assert_eq!(RootKeyring::parse_chain(b"junk\n"), Vec::<PublicKey>::new());
}

#[test]
fn header_reads_back() {
    let root = Keypair::from_seed([3; 32]);
    let cap = Capability::sign(Scope::parse("bmdb://h/l2/n").unwrap(), PermSet::write(), Some(9), 4, &root);
    let h = format!("Bearer {}", cap.to_header());
    assert_eq!(parse_cap_header(&h), Ok(cap.clone()));
    assert_eq!(parse_cap_header(&cap.to_header()), Err("expected Bearer scheme".to_string()));
    assert!(parse_cap_header("Bearer x").is_err());
    let mut cache = TokenCache::new();
    assert_eq!(cache.lookup(&h), Ok(cap.clone()));
    assert_eq!(cache.get(&token_digest(&h)), Some(&cap));
    assert!(cache.get(&token_digest("other")).is_none());
}

#[test]
fn digest_is_of_the_content() {
    let root = Keypair::from_seed([3; 32]);
    let a = Capability::sign(Scope::parse("bmdb://h/l2/n").unwrap(), PermSet::write(), None, 4, &root);
    let mut b = a.clone();
    b.sig[0] ^= 1;
    assert_ne!(a.digest_hex(), b.digest_hex());
    assert_eq!(a.digest_hex().len(), 64);
}

#[test]
fn a_capability_may_be_an_array_of_its_fields() {
    let root = Keypair::from_seed([3; 32]);
    let cap = Capability::sign(Scope::parse("bmdb://h/l2/n").unwrap(), PermSet::write(), None, 4, &root);
    let obj: serde_json::Value = serde_json::from_str(&cap.to_json()).unwrap();
    let names = ["scope", "perms", "expiry_ms", "nonce", "issuer", "subject", "sig"];
    let mut fields: Vec<serde_json::Value> = names.iter().map(|n| obj[n].clone()).collect();
    let text = serde_json::Value::from(fields.clone()).to_string();
    assert_eq!(Capability::from_json(&text), Ok(cap));
    fields.swap(4, 6);
    assert!(Capability::from_json(&serde_json::Value::from(fields.clone()).to_string()).is_err());
    fields.swap(4, 6);
    fields.push(serde_json::Value::Null);
    assert!(Capability::from_json(&serde_json::Value::from(fields.clone()).to_string()).is_err());
    fields.truncate(6);
    assert!(Capability::from_json(&serde_json::Value::from(fields).to_string()).is_err());
}

#[test]
fn key_texts_are_refused_with_a_reason() {
    let bad = |s: &str| PublicKey::from_hex(s).unwrap_err();
    assert_eq!(bad("abc"), "invalid hex: Odd number of digits");
    assert_eq!(bad("abxy"), "invalid hex: Invalid character 'x' at position 2");
    assert_eq!(bad("0\n"), "invalid hex: Invalid character '\\n' at position 1");
    assert_eq!(bad("é"), "invalid hex: Invalid character 'Ã' at position 0");
    assert_eq!(bad("abcd"), "expected 32 bytes, got 2");
}
