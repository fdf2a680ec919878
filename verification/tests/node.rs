//! Clocks, keys, the key file and key rotation.

use bunnymeshdb::caps::{Capability, PermSet, RevocationSet, RootKeyring, Scope, Tier};
use bunnymeshdb::clock::wall_ms;
use bunnymeshdb::node::hlc::{Hlc, COUNTER_RANGE};
use bunnymeshdb::node::ident::{random_nonce, Keypair, PublicKey};
use bunnymeshdb::node::meta;
use bunnymeshdb::node::rotate::rotate_root;
use bunnymeshdb::storage::disk::Disk;
use bunnymeshdb::storage::Store;

fn now() -> Hlc {
    let mut last = Hlc::from(0);
    Hlc::now(&mut last)
}

#[test]
fn causal_chain_orders() {
    let t0 = now();
    let mut a = t0;
    let mut b = t0;
    b.observed(a);
    a.observed(b);
    assert!(a > b, "a must be newer than b after the causal chain");
    assert!(a > t0 && b > t0);
}

#[test]
fn concurrent_increments_differ() {
    let t0 = now();
    let mut a = t0;
    let mut c = t0;
    a.observed(t0);
    c.observed(t0);
    assert_eq!(a, c, "equal concurrent increments tiebreak by replica");
    let mut b = t0;
    b.observed(a);
    assert_ne!(a, b);
    assert_ne!(b, c);
    let before = a;
    a.observed(b);
    assert!(a > b && a > before);
}

#[test]
fn backward_clock_stays_monotonic() {
    let base = now();
    let mut h = base;
    h.observed(Hlc::from(1u64));
    assert!(h > base, "must never regress: {} > {}", h.to_u64(), base.to_u64());
    assert!(h.ms() >= base.ms());
    let after = h;
    h.observed(Hlc::from(0u64));
    assert!(h >= after, "second older observation must not regress either");
    let at_max = Hlc::from((base.ms() << 16) | 0xffff);
    let mut h2 = Hlc::from(at_max.to_u64() - 1);
    h2.observed(at_max);
    assert_eq!(h2.ms(), at_max.ms() + 1);
    assert_eq!(h2.counter(), 0);
    assert!(h2 > at_max);
}

#[test]
fn ms_and_counter_roundtrip() {
    let h = now();
    assert_eq!(Hlc::from(h.to_u64()), h);
    assert_eq!(u64::from(h), h.to_u64());
    assert_eq!(h.ms(), h.to_u64() >> 16);
}

#[test]
fn now_is_strictly_increasing() {
    let mut last = Hlc::from(0);
    let a = Hlc::now(&mut last);
    let b = Hlc::now(&mut last);
    let c = Hlc::now(&mut last);
    assert!(b > a, "two immediate now() calls must be strictly increasing");
    assert!(c > b);
    assert_ne!(a, b);
    assert_ne!(b, c);
}

#[test]
fn issued_clock_takes_the_wall_clock_where_it_is_ahead() {
    assert_eq!(Hlc::issue(Hlc::from(5), 2).to_u64(), 2 * COUNTER_RANGE);
    assert_eq!(Hlc::issue(Hlc::from(3 * COUNTER_RANGE), 2).to_u64(), 3 * COUNTER_RANGE + 1);
    assert_eq!(Hlc::issue(Hlc::from(u64::MAX), 0).to_u64(), u64::MAX);
}

#[test]
fn wall_clock_is_past_the_epoch() {
    assert!(wall_ms() > 1_600_000_000_000);
}

#[test]
fn ident_sign_verify_roundtrip() {
    let kp = Keypair::generate().unwrap();
    let pubk = kp.public();
    let msg = b"the quick brown fox";
    let sig = kp.sign(msg);
    assert!(pubk.verify(msg, &sig));
    assert!(PublicKey::from_bytes(pubk.to_bytes()).verify(msg, &sig));
    let seed = kp.to_seed();
    assert_eq!(Keypair::from_seed(seed).public(), pubk);
}

#[test]
fn flipped_byte_fails() {
    let kp = Keypair::generate().unwrap();
    let pubk = kp.public();
    let msg = b"message";
    let mut sig = kp.sign(msg);

    let mut bad_msg = msg.to_vec();
    bad_msg[0] ^= 1;
    assert!(!pubk.verify(&bad_msg, &sig), "flipped message byte must fail");

    sig[32] ^= 1;
    assert!(!pubk.verify(msg, &sig), "flipped sig byte must fail");
}

#[test]
fn wrong_key_fails() {
    let a = Keypair::generate().unwrap();
    let b = Keypair::generate().unwrap();
    let sig = a.sign(b"data");
    assert!(!b.public().verify(b"data", &sig));
}

#[test]
fn hex_roundtrip() {
    let kp = Keypair::generate().unwrap();
    let s = kp.public().to_hex();
    assert_eq!(s.len(), 64);
    assert!(s.chars().all(|c| c.is_ascii_hexdigit()));
    assert_eq!(s.to_lowercase(), s, "display must be lowercase");
    let parsed: PublicKey = s.parse().unwrap();
    assert_eq!(parsed, kp.public());
    assert!("not-hex!!".parse::<PublicKey>().is_err());
    assert!("abcd".parse::<PublicKey>().is_err(), "too short");
}

#[test]
fn known_key_of_a_seed() {
    // The first test vector of RFC 8032.
    let seed: [u8; 32] = [
        0x9d, 0x61, 0xb1, 0x9d, 0xef, 0xfd, 0x5a, 0x60, 0xba, 0x84, 0x4a, 0xf4, 0x92, 0xec, 0x2c, 0xc4, 0x44, 0x49,
        0xc5, 0x69, 0x7b, 0x32, 0x69, 0x19, 0x70, 0x3b, 0xac, 0x03, 0x1c, 0xae, 0x7f, 0x60,
    ];
    let kp = Keypair::from_seed(seed);
    assert_eq!(kp.public().to_hex(), "d75a980182b10ab7d54bfed3c964073a0ee172f3daa62325af021a68f707511a");
    let sig = kp.sign(b"");
    assert_eq!(&sig[..4], &[0xe5, 0x56, 0x43, 0x00]);
    assert!(kp.public().verify(b"", &sig));
}

#[test]
fn bad_key_texts_say_why() {
    assert_eq!(PublicKey::from_hex("abcd").unwrap_err(), "expected 32 bytes, got 2");
    assert!(PublicKey::from_hex("zz").unwrap_err().starts_with("invalid hex: "));
}

#[test]
fn fresh_keys_and_nonces_differ() {
    assert_ne!(Keypair::generate().unwrap().to_seed(), Keypair::generate().unwrap().to_seed());
    assert_ne!(random_nonce().unwrap(), random_nonce().unwrap());
}

#[test]
fn init_load_roundtrip() {
    let (kp, file) = meta::init("d", false).unwrap();
    let loaded = meta::load("d/meta.bin", &file).unwrap();
    assert_eq!(loaded.public(), kp.public());
    assert_eq!(loaded.to_seed(), kp.to_seed());
    assert!(meta::init("d", true).is_err());
    assert!(meta::load("d/meta.bin", b"BOGUS").is_err());
}

fn keyring_of(key_file: &[u8], disk: &Disk) -> RootKeyring {
    let new_kp = meta::load("meta.bin", key_file).unwrap();
    let store = Store::open(disk).unwrap();
    let retired = match store.meta_get("sys/root_chain") {
        Some(v) => RootKeyring::parse_chain(v),
        None => Vec::new(),
    };
    RootKeyring { active: new_kp.public(), retired }
}

fn l1admin(host: &str, kp: &Keypair) -> Capability {
    let scope = Scope { host: host.into(), tier: Tier::L1, ns: "*".into(), prefix: None };
    Capability::sign(scope, PermSet::admin(), None, 7, kp)
}

#[test]
fn graceful_rotate_keeps_old_caps_verifying() {
    let (old_kp, file) = meta::init("grace", false).unwrap();
    let old_root = old_kp.public();
    let old_cap = l1admin("api.test", &old_kp);
    let mut s = Store::open(&Disk { snap: None, dirs: vec![] }).unwrap();
    s.meta_set("sys/admin_cap", old_cap.clone().to_header().into_bytes());
    s.checkpoint().unwrap();

    let rotated = rotate_root("grace/meta.bin", &file, &s.disk(), false, true).unwrap();
    let out = rotated.outcome.as_ref().unwrap();
    assert!(!out.dropped, "graceful rotate is not a drop");
    assert!(out.old_root == old_root, "old_root is the pre-rotation key");
    assert!(out.new_root != old_root, "active key actually changed");
    assert!(out.admin_cap.is_some(), "reissue_admin mints a fresh admin cap");

    let kr = keyring_of(&rotated.key_file, &rotated.disk);
    assert!(kr.active == out.new_root, "active is the new root");
    assert!(kr.accepts_issuer(&old_root), "old root is a valid predecessor");

    let rev = RevocationSet::new();
    let now = wall_ms();
    assert!(old_cap.verify(&kr, &old_root, &rev, now).is_ok(), "pre-rotation cap verifies after graceful rotate");
    let new_kp = meta::load("grace/meta.bin", &rotated.key_file).unwrap();
    let fresh = l1admin("api.test", &new_kp);
    assert!(fresh.verify(&kr, &new_kp.public(), &rev, now).is_ok(), "active-key cap verifies");
}

#[test]
fn drop_rotate_severs_old_caps() {
    let (old_kp, file) = meta::init("drop", false).unwrap();
    let old_root = old_kp.public();
    let old_cap = l1admin("api.test", &old_kp);

    let rotated = rotate_root("drop/meta.bin", &file, &Disk { snap: None, dirs: vec![] }, true, false).unwrap();
    let out = rotated.outcome.as_ref().unwrap();
    assert!(out.dropped, "drop requested");

    let kr = keyring_of(&rotated.key_file, &rotated.disk);
    assert!(kr.active == out.new_root, "rotation advanced the active key");
    assert!(!kr.accepts_issuer(&old_root), "dropped key is not a valid issuer");

    let rev = RevocationSet::new();
    assert!(old_cap.verify(&kr, &old_root, &rev, wall_ms()).is_err(), "dropped-key cap no longer verifies");
}

#[test]
fn a_bad_admin_token_does_not_stop_a_rotation() {
    let (old_kp, file) = meta::init("bad", false).unwrap();
    let mut s = Store::open(&Disk { snap: None, dirs: vec![] }).unwrap();
    s.meta_set("sys/admin_cap", b"bmdb-cap:junk".to_vec());
    s.checkpoint().unwrap();
    let rotated = rotate_root("bad/meta.bin", &file, &s.disk(), false, true).unwrap();
    assert!(rotated.outcome.is_err());
    let kr = keyring_of(&rotated.key_file, &rotated.disk);
    assert!(kr.active != old_kp.public(), "the new key took over");
    assert!(kr.accepts_issuer(&old_kp.public()));
}

#[test]
fn a_rotation_without_a_token_warns() {
    let (_, file) = meta::init("none", false).unwrap();
    let rotated = rotate_root("none/meta.bin", &file, &Disk { snap: None, dirs: vec![] }, false, true).unwrap();
    let out = rotated.outcome.unwrap();
    assert!(out.admin_cap.is_none());
    assert!(out.admin_warning.is_some());
}
