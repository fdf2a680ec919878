//! Rate limits.

use bunnymeshdb::server::ratelimit::{RateLimiter, SHARDS};

#[test]
fn shard_map_has_absolute_bound() {
    let budget = 4;
    let mut rl = RateLimiter::with_budget(true, 1_000_000_000, 3_600_000, budget);
    let now = 1_700_000_000_000;
    let flood = SHARDS * budget * 8;
    for i in 0..flood {
        let key = format!("k{i}");
        assert!(rl.allow(&key, now), "every distinct key is allowed");
    }
    let total = rl.total();
    assert!(
        total <= SHARDS * (budget * 2 + 1),
        "absolute shard bound violated: {total} buckets for {flood} keys"
    );
}

#[test]
fn windows_are_sticky_per_key() {
    let mut rl = RateLimiter::new(true, 2, 1);
    let t0 = 1_000_000_000;
    assert!(rl.allow("a", t0));
    assert!(rl.allow("a", t0));
    assert!(!rl.allow("a", t0), "third request in the same second is denied");
    assert!(rl.allow("a", t0 + 1000), "a new window resets the count");
    assert!(rl.allow("b", t0), "a different key never shares the bucket");
}

#[test]
fn stale_buckets_are_reclaimed() {
    let mut rl = RateLimiter::with_budget(true, 1_000_000_000, 1000, 4);
    let t0 = 1_000_000_000;
    for i in 0..64 {
        let key = format!("s{i}");
        assert!(rl.allow(&key, t0));
    }
    for i in 0..64 {
        let key = format!("s{i}");
        assert!(rl.allow(&key, t0 + 2000));
    }
    let total = rl.total();
    assert!(total <= 64, "same keys must not duplicate buckets: {total}");
}

#[test]
fn a_switched_off_limiter_lets_all_through() {
    let mut rl = RateLimiter::new(false, 0, 1);
    for _ in 0..5 {
        assert!(rl.allow("a", 1));
    }
    assert_eq!(rl.total(), 0);
}
