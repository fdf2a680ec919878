//! Who may do what, and quotas.

use bunnymeshdb::caps::{Capability, PermSet, RevocationSet, RootKeyring, Scope, Tier};
use bunnymeshdb::clock::wall_ms;
use bunnymeshdb::node::ident::Keypair;
use bunnymeshdb::ns::{
    account_write, authorize, authorize_cached, bytes_written, ensure_l3_namespace, AuthError, CapCache,
};
use bunnymeshdb::storage::{ConflictPolicy, Disk, Store};

fn now_ms() -> u64 {
    wall_ms()
}

fn scope(s: &str) -> Scope {
    Scope::parse(s).unwrap()
}

fn fresh() -> Store {
    Store::open(&Disk { snap: None, dirs: vec![] }).unwrap()
}

#[test]
fn l3_owner_only() {
    let root = Keypair::generate().unwrap();
    let owner = Keypair::generate().unwrap();
    let other = Keypair::generate().unwrap();
    let s = scope(&format!("bmdb://api.test/l3/u/{}", owner.public().to_hex()));
    let kr = RootKeyring::current(root.public());
    let rev = RevocationSet::new();
    assert!(matches!(
        authorize(&s, &owner.public(), PermSet::write(), &vec![], &kr, &rev, "api.test", now_ms()),
        Err(AuthError::Unauthorized(_))
    ));
    let owner_cap = Capability::sign_for(
        s.clone(),
        PermSet::read().union(PermSet::write()),
        Some(now_ms() + 60_000),
        1,
        owner.public(),
        &root,
    );
    assert!(authorize(&s, &owner.public(), PermSet::write(), &vec![owner_cap.clone()], &kr, &rev, "api.test", now_ms()).is_ok());
    let other_cap_scope = scope(&format!("bmdb://api.test/l3/u/{}", other.public().to_hex()));
    let other_cap = Capability::sign_for(
        other_cap_scope,
        PermSet::read().union(PermSet::write()),
        Some(now_ms() + 60_000),
        2,
        other.public(),
        &root,
    );
    assert!(matches!(
        authorize(&s, &other.public(), PermSet::write(), &vec![other_cap], &kr, &rev, "api.test", now_ms()),
        Err(AuthError::Unauthorized(_))
    ));
    assert!(matches!(
        authorize(&s, &owner.public(), PermSet::write(), &vec![owner_cap.clone()], &kr, &rev, "other.test", now_ms()),
        Err(AuthError::Unauthorized(_))
    ));
}

#[test]
fn forged_cap_cannot_reuse_cached_nonce() {
    let root = Keypair::generate().unwrap();
    let user = Keypair::generate().unwrap();
    let kr = RootKeyring::current(root.public());
    let rev = RevocationSet::new();
    let mut cache = CapCache::new();
    let epoch = 0u64;

    let l2 = scope("bmdb://api.test/l2/photos");
    let legit = Capability::sign_for(
        l2.clone(),
        PermSet::read(),
        Some(now_ms() + 60_000),
        77,
        user.public(),
        &root,
    );
    assert!(authorize_cached(
        &l2,
        &user.public(),
        PermSet::read(),
        &vec![legit.clone()],
        &kr,
        &rev,
        "api.test",
        now_ms(),
        &mut cache,
        epoch,
    )
    .is_ok());

    let forged = Capability {
        scope: scope("bmdb://api.test/l1/*"),
        perms: PermSet::admin(),
        expiry_ms: None,
        nonce: 77,
        issuer: root.public(),
        subject: user.public(),
        sig: [0u8; 64],
    };
    assert!(matches!(
        authorize_cached(
            &scope("bmdb://api.test/l1/*"),
            &user.public(),
            PermSet::admin(),
            &vec![forged],
            &kr,
            &rev,
            "api.test",
            now_ms(),
            &mut cache,
            epoch,
        ),
        Err(AuthError::Unauthorized(_))
    ));
    assert!(authorize_cached(
        &l2,
        &user.public(),
        PermSet::read(),
        &vec![legit.clone()],
        &kr,
        &rev,
        "api.test",
        now_ms(),
        &mut cache,
        epoch,
    )
    .is_ok());
}

#[test]
fn l2_cap_required_and_scoped() {
    let root = Keypair::generate().unwrap();
    let user = Keypair::generate().unwrap();
    let base = scope("bmdb://api.test/l2/photos");
    let sub = scope("bmdb://api.test/l2/photos/a");
    let other_ns = scope("bmdb://api.test/l2/other");
    let kr = RootKeyring::current(root.public());
    let none = RevocationSet::new();

    let cap = Capability::sign_for(
        base.clone(),
        PermSet::read().union(PermSet::write()),
        Some(now_ms() + 60_000),
        1,
        user.public(),
        &root,
    );
    let caps = vec![cap.clone()];
    assert!(authorize(&base, &user.public(), PermSet::read(), &caps, &kr, &none, "api.test", now_ms()).is_ok());
    assert!(authorize(&sub, &user.public(), PermSet::write(), &caps, &kr, &none, "api.test", now_ms()).is_ok());
    assert!(matches!(
        authorize(&other_ns, &user.public(), PermSet::read(), &caps, &kr, &none, "api.test", now_ms()),
        Err(AuthError::Unauthorized(_))
    ));
    assert!(matches!(
        authorize(&base, &user.public(), PermSet::read(), &vec![], &kr, &none, "api.test", now_ms()),
        Err(AuthError::Unauthorized(_))
    ));
    let read_only = Capability::sign_for(base.clone(), PermSet::read(), None, 2, user.public(), &root);
    assert!(authorize(&base, &user.public(), PermSet::read(), &vec![read_only.clone()], &kr, &none, "api.test", now_ms()).is_ok());
    assert!(matches!(
        authorize(&base, &user.public(), PermSet::write(), &vec![read_only], &kr, &none, "api.test", now_ms()),
        Err(AuthError::Unauthorized(_))
    ));
    let expired = Capability::sign_for(base.clone(), PermSet::read(), Some(now_ms() - 10), 3, user.public(), &root);
    assert!(matches!(
        authorize(&base, &user.public(), PermSet::read(), &vec![expired], &kr, &none, "api.test", now_ms()),
        Err(AuthError::Unauthorized(_))
    ));
    let mut rev = RevocationSet::new();
    rev.revoke_principal(&base, &user.public().to_hex());
    assert!(matches!(
        authorize(&base, &user.public(), PermSet::read(), &vec![cap], &kr, &rev, "api.test", now_ms()),
        Err(AuthError::Unauthorized(_))
    ));
    let narrow = Capability::sign_for(scope("bmdb://api.test/l2/photos/x"), PermSet::write(), None, 4, user.public(), &root);
    assert!(matches!(
        authorize(&base, &user.public(), PermSet::write(), &vec![narrow], &kr, &none, "api.test", now_ms()),
        Err(AuthError::Unauthorized(_))
    ));
}

#[test]
fn l1_admin_only() {
    let root = Keypair::generate().unwrap();
    let admin = Capability::sign(
        Scope { host: "api.test".into(), tier: Tier::L1, ns: "*".into(), prefix: None },
        PermSet::admin(),
        None,
        11,
        &root,
    );
    let l2_only = Capability::sign(scope("bmdb://api.test/l2/photos"), PermSet::read(), None, 12, &root);
    let l1_scope = Scope { host: "api.test".into(), tier: Tier::L1, ns: "*".into(), prefix: None };
    let kr = RootKeyring::current(root.public());
    let none = RevocationSet::new();
    assert!(authorize(&l1_scope, &root.public(), PermSet::admin(), &vec![admin.clone()], &kr, &none, "api.test", now_ms()).is_ok());
    assert!(matches!(
        authorize(&l1_scope, &root.public(), PermSet::admin(), &vec![l2_only], &kr, &none, "api.test", now_ms()),
        Err(AuthError::Unauthorized(_))
    ));
}

#[test]
fn quota_accounting() {
    let mut s = fresh();
    s.create_namespace("n", ConflictPolicy::Lww).unwrap();
    assert_eq!(bytes_written(&s, "n"), 0);
    account_write(&mut s, "n", 100, 200).unwrap();
    assert_eq!(bytes_written(&s, "n"), 100);
    account_write(&mut s, "n", 100, 200).unwrap();
    assert_eq!(bytes_written(&s, "n"), 200);
    assert_eq!(
        account_write(&mut s, "n", 1, 200),
        Err(AuthError::QuotaExceeded { ns: "n".into(), limit: 200 })
    );
    assert_eq!(bytes_written(&s, "n"), 200, "failed write must not account");
    s.checkpoint().unwrap();
    let s2 = Store::open(&s.disk()).unwrap();
    assert_eq!(bytes_written(&s2, "n"), 200);
}

#[test]
fn own_namespace_is_made_once() {
    let mut s = fresh();
    let kp = Keypair::from_seed([5; 32]);
    let name = ensure_l3_namespace(&mut s, &kp.public()).unwrap();
    assert_eq!(name, format!("u/{}", kp.public().to_hex()));
    assert_eq!(s.policy(&name), Some(ConflictPolicy::Lww));
    let again = s.revision();
    assert_eq!(ensure_l3_namespace(&mut s, &kp.public()).unwrap(), name);
    assert_eq!(s.revision(), again);
}

#[test]
fn an_administrator_of_another_host_is_none_here() {
    let root = Keypair::from_seed([1; 32]);
    let kr = RootKeyring::current(root.public());
    let none = RevocationSet::new();
    let here = scope("bmdb://api.test/l1/*");
    let there = Capability::sign(scope("bmdb://old.test/l1/*"), PermSet::admin(), None, 1, &root);
    assert!(matches!(
        authorize(&here, &root.public(), PermSet::admin(), &vec![there], &kr, &none, "api.test", 5),
        Err(AuthError::Unauthorized(_))
    ));
}

#[test]
fn a_cache_changes_no_answer() {
    let root = Keypair::from_seed([1; 32]);
    let user = Keypair::from_seed([2; 32]);
    let kr = RootKeyring::current(root.public());
    let rev = RevocationSet::new();
    let mut cache = CapCache::new();
    let l2 = scope("bmdb://api.test/l2/photos");
    let good = Capability::sign_for(l2.clone(), PermSet::read(), Some(100), 7, user.public(), &root);
    let mut forged = good.clone();
    forged.perms = PermSet::read().union(PermSet::write());
    let mut resigned = good.clone();
    resigned.sig[5] ^= 1;
    for now in [1, 50, 99, 100, 2, 150] {
        for cap in [&good, &forged, &resigned] {
            for perms in [PermSet::read(), PermSet::write()] {
                let caps = vec![cap.clone()];
                let kept = authorize_cached(&l2, &user.public(), perms, &caps, &kr, &rev, "api.test", now, &mut cache, 3);
                let anew = authorize(&l2, &user.public(), perms, &caps, &kr, &rev, "api.test", now);
                assert_eq!(kept, anew);
            }
        }
    }
}
