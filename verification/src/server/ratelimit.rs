//! A limiter of requests per client key and fixed window of time.
//!
//! The buckets are striped over shards. A shard that grows over its budget gives up
//! buckets of past windows; one that grows over twice its budget gives up any. So a
//! flood of keys cannot grow the limiter without bound, and no call looks at more than
//! a fixed number of buckets.

use crate::ordmap;
use crate::ordmap::OrdMap;
use crate::text;
use vstd::prelude::*;

verus! {

pub const SHARDS: usize = 64;

pub const MAX_KEYS: usize = 1_000_000;

pub const MAX_KEYS_PER_SHARD: usize = 15_625;

/// How many buckets one call looks at to give some up.
pub const EVICT_SCAN_BUDGET: usize = 512;

/// The buckets of a shard: the window of a key's last request, and how many it made
/// in it.
pub type BucketsV = Map<Seq<u8>, (u64, u64)>;

/// The limiter as a value of the model.
#[verifier::ext_equal]
pub struct LimiterV {
    pub enabled: bool,
    pub max_requests: u64,
    pub window_ms: u64,
    pub budget: nat,
    pub shards: Seq<BucketsV>,
}

/// A number for some bytes.
pub open spec fn mixed(b: Seq<u8>) -> int
    decreases b.len(),
{
    if b.len() == 0 {
        0
    } else {
        (mixed(b.drop_last()) * 31 + b.last()) % 0x1_0000_0000
    }
}

/// The shard of a key.
pub open spec fn shard_of(key: Seq<u8>) -> int {
    mixed(key) % (SHARDS as int)
}

/// The first keys of a shard, as many as one call looks at.
pub open spec fn looked_at(m: BucketsV) -> Seq<Seq<u8>> {
    let ks = ordmap::listed(m.dom());
    if ks.len() > EVICT_SCAN_BUDGET {
        ks.take(EVICT_SCAN_BUDGET as int)
    } else {
        ks
    }
}

/// A shard without the buckets of past windows among the first.
pub open spec fn without_stale(m: BucketsV, window: u64) -> BucketsV {
    m.remove_keys(Set::new(|k: Seq<u8>| looked_at(m).contains(k) && m[k].0 < window))
}

/// A shard without its first buckets.
pub open spec fn without_first(m: BucketsV) -> BucketsV {
    m.remove_keys(Set::new(|k: Seq<u8>| looked_at(m).contains(k)))
}

/// A shard with a new bucket, and with what it gives up for it.
pub open spec fn admitted(m: BucketsV, key: Seq<u8>, window: u64, budget: nat) -> BucketsV {
    let grown = m.insert(key, (window, 1));
    let trimmed = if grown.dom().len() > budget {
        without_stale(grown, window)
    } else {
        grown
    };
    if trimmed.dom().len() > budget * 2 {
        without_first(trimmed)
    } else {
        trimmed
    }
}

impl LimiterV {
    /// Are requests counted at all?
    pub open spec fn counts(self) -> bool {
        self.enabled && self.max_requests != 0 && self.window_ms != 0
    }

    /// The bucket of a key.
    pub open spec fn bucket(self, key: Seq<u8>) -> Option<(u64, u64)> {
        let m = self.shards[shard_of(key)];
        if m.dom().contains(key) {
            Some(m[key])
        } else {
            None
        }
    }

    /// The window of a key's last request.
    pub open spec fn window(self, key: Seq<u8>) -> u64 {
        self.shards[shard_of(key)][key].0
    }

    /// How many requests a key made in that window.
    pub open spec fn count(self, key: Seq<u8>) -> u64 {
        self.shards[shard_of(key)][key].1
    }

    /// Is a request of the key let through?
    pub open spec fn lets(self, key: Seq<u8>, now_ms: u64) -> bool {
        !self.counts() || match self.bucket(key) {
            Some(b) => b.0 != now_ms / self.window_ms || b.1 < self.max_requests,
            None => true,
        }
    }

    /// The limiter after a request of the key.
    pub open spec fn after(self, key: Seq<u8>, now_ms: u64) -> LimiterV {
        let window = now_ms / self.window_ms;
        let i = shard_of(key);
        let m = self.shards[i];
        if !self.counts() || !self.lets(key, now_ms) {
            self
        } else {
            LimiterV {
                shards: self.shards.update(
                    i,
                    match self.bucket(key) {
                        Some(b) => m.insert(
                            key,
                            if b.0 == window {
                                (window, (b.1 + 1) as u64)
                            } else {
                                (window, 1)
                            },
                        ),
                        None => admitted(m, key, window, self.budget),
                    },
                ),
                ..self
            }
        }
    }

    /// No shard is over twice its budget, and no bucket over the limit.
    pub open spec fn bounded(self) -> bool {
        &&& self.shards.len() == SHARDS
        &&& forall|i: int|
            0 <= i < SHARDS ==> (#[trigger] self.shards[i]).dom().finite() && self.shards[i].dom().len() <= self.budget
                * 2
        &&& forall|i: int, k: Seq<u8>|
            0 <= i < SHARDS && (#[trigger] self.shards[i]).dom().contains(k) ==> (#[trigger] self.shards[i][k]).1
                <= self.max_requests || self.max_requests == 0
    }
}

pub struct RateLimiter {
    enabled: bool,
    max_requests: u64,
    window_ms: u64,
    budget: usize,
    shards: Vec<OrdMap<(u64, u64)>>,
}

impl View for RateLimiter {
    type V = LimiterV;

    closed spec fn view(&self) -> LimiterV {
        LimiterV {
            enabled: self.enabled,
            max_requests: self.max_requests,
            window_ms: self.window_ms,
            budget: self.budget as nat,
            shards: Seq::new(self.shards@.len(), |i: int| self.shards@[i]@),
        }
    }
}

/// A shard number for a key.
fn shard_for(key: &[u8]) -> (r: usize)
    ensures
        r == shard_of(key@),
        r < SHARDS,
{
    let mut h: u64 = 0;
    let mut i: usize = 0;
    assert(key@.take(0) =~= Seq::empty());
    while i < key.len()
        invariant
            i <= key@.len(),
            h < 0x1_0000_0000,
            h == mixed(key@.take(i as int)),
        decreases key@.len() - i,
    {
        assert(key@.take(i + 1).drop_last() =~= key@.take(i as int));
        h = (h * 31 + key[i] as u64) % 0x1_0000_0000;
        i += 1;
    }
    assert(key@.take(i as int) =~= key@);
    (h % 64) as usize
}

/// Is the key among the first `n`?
spec fn named(ks: Seq<Vec<u8>>, n: int, k: Seq<u8>) -> bool {
    exists|l: int| 0 <= l < n && (#[trigger] ks[l])@ == k
}

/// Does the bucket go?
spec fn goes(m: BucketsV, k: Seq<u8>, window: u64, all: bool) -> bool {
    all || m[k].0 < window
}

/// The list holds the keys among the first that go.
spec fn collected(gone: Seq<Vec<u8>>, ks: Seq<Seq<u8>>, m: BucketsV, window: u64, all: bool) -> bool {
    forall|k: Seq<u8>| #[trigger] named(gone, gone.len() as int, k) <==> ks.contains(k) && goes(m, k, window, all)
}

proof fn lemma_named_push(gone: Seq<Vec<u8>>, v: Vec<u8>, k: Seq<u8>)
    ensures
        named(gone.push(v), (gone.len() + 1) as int, k) <==> named(gone, gone.len() as int, k) || v@ == k,
{
    let more = gone.push(v);
    if named(gone, gone.len() as int, k) {
        let l = choose|l: int| 0 <= l < gone.len() && (#[trigger] gone[l])@ == k;
        assert(more[l]@ == k);
    }
    if v@ == k {
        assert(more[gone.len() as int]@ == k);
    }
    if named(more, (gone.len() + 1) as int, k) {
        let l = choose|l: int| 0 <= l < gone.len() + 1 && (#[trigger] more[l])@ == k;
        if l < gone.len() {
            assert(gone[l]@ == k);
        }
    }
}

proof fn lemma_named_more(gone: Seq<Vec<u8>>, n: int, k: Seq<u8>)
    requires
        0 <= n < gone.len(),
    ensures
        named(gone, n + 1, k) <==> named(gone, n, k) || gone[n]@ == k,
{
    if named(gone, n + 1, k) {
        let l = choose|l: int| 0 <= l < n + 1 && (#[trigger] gone[l])@ == k;
        assert(l == n || gone[l]@ == k);
    }
}

proof fn lemma_take_more(ks: Seq<Seq<u8>>, i: int, k: Seq<u8>)
    requires
        0 <= i < ks.len(),
    ensures
        ks.take(i + 1).contains(k) <==> ks.take(i).contains(k) || k == ks[i],
{
    let more = ks.take(i + 1);
    let less = ks.take(i);
    if less.contains(k) {
        let j = less.index_of(k);
        assert(more[j] == k);
    }
    if k == ks[i] {
        assert(more[i] == k);
    }
    if more.contains(k) {
        let j = more.index_of(k);
        if j < i {
            assert(less[j] == k);
        }
    }
}

/// The keys among the first `n` of a shard whose buckets go.
fn collect(m: &OrdMap<(u64, u64)>, n: usize, window: u64, all: bool) -> (gone: Vec<Vec<u8>>)
    requires
        m.wf(),
        n <= m.key_seq().len(),
    ensures
        collected(gone@, m.key_seq().take(n as int), m@, window, all),
{
    let ghost ks = m.key_seq();
    let mut gone: Vec<Vec<u8>> = Vec::new();
    let mut i: usize = 0;
    while i < n
        invariant
            i <= n <= ks.len(),
            m.wf(),
            ks == m.key_seq(),
            collected(gone@, ks.take(i as int), m@, window, all),
        decreases n - i,
    {
        let ghost had = gone@;
        let go = all || m.val_at(i).0 < window;
        if go {
            let k = m.key_at(i).clone();
            gone.push(k);
            proof {
                assert forall|x: Seq<u8>| #[trigger] named(gone@, gone@.len() as int, x) <==> ks.take(i + 1).contains(x)
                    && goes(m@, x, window, all) by {
                    lemma_named_push(had, k, x);
                    lemma_take_more(ks, i as int, x);
                    assert(named(had, had.len() as int, x) <==> ks.take(i as int).contains(x) && goes(
                        m@,
                        x,
                        window,
                        all,
                    ));
                }
            }
        } else {
            proof {
                assert forall|x: Seq<u8>| #[trigger] named(gone@, gone@.len() as int, x) <==> ks.take(i + 1).contains(x)
                    && goes(m@, x, window, all) by {
                    lemma_take_more(ks, i as int, x);
                    assert(!goes(m@, ks[i as int], window, all));
                }
            }
        }
        i += 1;
    }
    gone
}

/// A shard without the first `n` keys of a list.
spec fn less(m: BucketsV, gone: Seq<Vec<u8>>, n: int) -> BucketsV {
    m.remove_keys(Set::new(|k: Seq<u8>| named(gone, n, k)))
}

fn remove_all(m: &mut OrdMap<(u64, u64)>, gone: &Vec<Vec<u8>>)
    requires
        old(m).wf(),
    ensures
        final(m).wf(),
        final(m)@ == less(old(m)@, gone@, gone@.len() as int),
{
    let ghost was = m@;
    let mut l: usize = 0;
    assert(m@ =~= less(was, gone@, 0));
    while l < gone.len()
        invariant
            l <= gone@.len(),
            m.wf(),
            m@ == less(was, gone@, l as int),
        decreases gone@.len() - l,
    {
        m.remove(gone[l].as_slice());
        proof {
            let k0 = gone@[l as int]@;
            assert forall|k: Seq<u8>| #[trigger] named(gone@, l + 1, k) <==> named(gone@, l as int, k) || k == k0 by {
                lemma_named_more(gone@, l as int, k);
            }
            assert(less(was, gone@, l as int).remove(k0) =~= less(was, gone@, l + 1));
        }
        l += 1;
    }
}

/// Drop some of the first buckets of a shard: those of past windows, or all.
fn evict(m: &mut OrdMap<(u64, u64)>, window: u64, all: bool)
    requires
        old(m).wf(),
    ensures
        final(m).wf(),
        final(m)@ == (if all {
            without_first(old(m)@)
        } else {
            without_stale(old(m)@, window)
        }),
{
    let ghost was = m@;
    let n: usize = if m.len() > EVICT_SCAN_BUDGET {
        EVICT_SCAN_BUDGET
    } else {
        m.len()
    };
    proof {
        m.lemma_keys();
        assert(looked_at(was) =~= m.key_seq().take(n as int));
    }
    let gone = collect(m, n, window, all);
    remove_all(m, &gone);
    proof {
        let c = gone@.len() as int;
        assert forall|k: Seq<u8>| #[trigger] named(gone@, c, k) <==> looked_at(was).contains(k) && goes(
            was,
            k,
            window,
            all,
        ) by {}
        if all {
            assert(less(was, gone@, c) =~= without_first(was));
        } else {
            assert(less(was, gone@, c) =~= without_stale(was, window));
        }
    }
}

/// Giving up the first buckets makes a shard smaller.
proof fn lemma_first_goes(m: BucketsV)
    requires
        m.dom().finite(),
        m.dom().len() > 0,
        exists|s: Seq<Seq<u8>>| ordmap::ascending(s) && ordmap::lists(s, m.dom()),
    ensures
        without_first(m).dom().finite(),
        without_first(m).dom().len() < m.dom().len(),
        forall|k: Seq<u8>| without_first(m).dom().contains(k) ==> m.dom().contains(k) && without_first(m)[k] == m[k],
{
    let ks = ordmap::listed(m.dom());
    assert(ordmap::ascending(ks) && ordmap::lists(ks, m.dom()));
    let x = m.dom().choose();
    assert(m.dom().contains(x));
    assert(ks.contains(x));
    let f = ks[0];
    assert(ks.contains(f));
    assert(m.dom().contains(f));
    assert(looked_at(m)[0] == f);
    let d = without_first(m).dom();
    assert(d.subset_of(m.dom().remove(f)));
    vstd::set_lib::lemma_len_subset(d, m.dom().remove(f));
}

proof fn lemma_stale_goes(m: BucketsV, window: u64)
    requires
        m.dom().finite(),
    ensures
        without_stale(m, window).dom().finite(),
        without_stale(m, window).dom().len() <= m.dom().len(),
        forall|k: Seq<u8>|
            without_stale(m, window).dom().contains(k) ==> m.dom().contains(k) && without_stale(m, window)[k] == m[k],
{
    let d = without_stale(m, window).dom();
    assert(d.subset_of(m.dom()));
    vstd::set_lib::lemma_len_subset(d, m.dom());
}

impl RateLimiter {
    pub closed spec fn wf(&self) -> bool {
        &&& self.shards@.len() == SHARDS
        &&& forall|i: int| 0 <= i < SHARDS ==> (#[trigger] self.shards@[i]).wf()
        &&& self@.bounded()
        &&& self.budget <= MAX_KEYS_PER_SHARD
    }

    /// Whatever requests came, and from however many keys, a limiter remembers a bounded
    /// number of them.
    pub proof fn law_shards_are_bounded(&self, i: int)
        requires
            self.wf(),
            0 <= i < SHARDS,
        ensures
            self@.shards.len() == SHARDS,
            self@.shards[i].dom().finite(),
            self@.shards[i].dom().len() <= self@.budget * 2 <= MAX_KEYS_PER_SHARD * 2,
    {
    }

    /// A limiter whose shards have the given budget.
    pub fn with_budget(enabled: bool, max_requests: u64, window_ms: u64, budget: usize) -> (r: RateLimiter)
        requires
            budget <= MAX_KEYS_PER_SHARD,
        ensures
            r.wf(),
            r@ == (LimiterV {
                enabled,
                max_requests,
                window_ms,
                budget: budget as nat,
                shards: Seq::new(SHARDS as nat, |i: int| Map::<Seq<u8>, (u64, u64)>::empty()),
            }),
    {
        let mut shards: Vec<OrdMap<(u64, u64)>> = Vec::new();
        let mut i: usize = 0;
        while i < SHARDS
            invariant
                i <= SHARDS,
                shards@.len() == i,
                forall|j: int|
                    0 <= j < i ==> (#[trigger] shards@[j]).wf() && shards@[j]@ == Map::<Seq<u8>, (u64, u64)>::empty(),
            decreases SHARDS - i,
        {
            shards.push(OrdMap::new());
            i += 1;
        }
        let r = RateLimiter { enabled, max_requests, window_ms, budget, shards };
        assert(r@.shards =~= Seq::new(SHARDS as nat, |j: int| Map::<Seq<u8>, (u64, u64)>::empty()));
        r
    }

    /// A limiter of `max_requests` in each window. None of either is no limit.
    pub fn new(enabled: bool, max_requests: u64, window_secs: u64) -> (r: RateLimiter)
        ensures
            r.wf(),
            r@ == (LimiterV {
                enabled,
                max_requests,
                window_ms: if window_secs * 1000 > u64::MAX {
                    u64::MAX
                } else {
                    (window_secs * 1000) as u64
                },
                budget: MAX_KEYS_PER_SHARD as nat,
                shards: Seq::new(SHARDS as nat, |i: int| Map::<Seq<u8>, (u64, u64)>::empty()),
            }),
    {
        let window_ms: u64 = if window_secs > u64::MAX / 1000 {
            u64::MAX
        } else {
            window_secs * 1000
        };
        RateLimiter::with_budget(enabled, max_requests, window_ms, MAX_KEYS_PER_SHARD)
    }

    /// Is the request let through? Where it is not, too many came in this window.
    pub fn allow(&mut self, key: &str, now_ms: u64) -> (r: bool)
        requires
            old(self).wf(),
        ensures
            final(self).wf(),
            r == old(self)@.lets(text::utf8(key@), now_ms),
            final(self)@ == old(self)@.after(text::utf8(key@), now_ms),
    {
        if !self.enabled || self.max_requests == 0 || self.window_ms == 0 {
            return true;
        }
        let ghost before = self@;
        let k = text::bytes_of(key);
        let ghost kv = k@;
        let i: usize = shard_for(k.as_slice());
        let window: u64 = now_ms / self.window_ms;
        assert(before.shards[i as int] == self.shards@[i as int]@);
        let had = match self.shards[i].get(k.as_slice()) {
            Some(b) => Some(*b),
            None => None,
        };
        match had {
            Some(b) => {
                if b.0 == window {
                    if b.1 >= self.max_requests {
                        return false;
                    }
                    self.shards[i].insert(k, (window, b.1 + 1));
                } else {
                    self.shards[i].insert(k, (window, 1));
                }
                proof {
                    self.shards@[i as int].lemma_count();
                    assert(self@.shards =~= before.after(kv, now_ms).shards);
                    let m = before.shards[i as int];
                    assert(self@.shards[i as int].dom() =~= m.dom());
                    self.lemma_update(before, i as int);
                }
            },
            None => {
                let ghost m = before.shards[i as int];
                let ghost grown = m.insert(kv, (window, 1));
                let budget: usize = self.budget;
                let shard = &mut self.shards[i];
                shard.insert(k, (window, 1));
                proof {
                    shard.lemma_count();
                    assert(grown.dom() =~= m.dom().insert(kv));
                }
                if shard.len() > budget {
                    evict(shard, window, false);
                    proof {
                        lemma_stale_goes(grown, window);
                    }
                }
                let ghost trimmed = shard@;
                proof {
                    shard.lemma_count();
                    shard.lemma_keys();
                }
                if shard.len() > budget * 2 {
                    proof {
                        let ks = shard.key_seq();
                        assert(ordmap::lists(ks, trimmed.dom()));
                        lemma_first_goes(trimmed);
                    }
                    evict(shard, window, true);
                }
                proof {
                    assert(self@.shards =~= before.after(kv, now_ms).shards);
                    self.lemma_update(before, i as int);
                }
            },
        }
        true
    }

    proof fn lemma_update(&self, before: LimiterV, i: int)
        requires
            before.bounded(),
            self.shards@.len() == SHARDS,
            forall|j: int| 0 <= j < SHARDS ==> (#[trigger] self.shards@[j]).wf(),
            0 <= i < SHARDS,
            self@.budget == before.budget,
            self@.max_requests == before.max_requests,
            before.max_requests > 0,
            forall|j: int| 0 <= j < SHARDS && j != i ==> (#[trigger] self@.shards[j]) == before.shards[j],
            self@.shards[i].dom().finite(),
            self@.shards[i].dom().len() <= before.budget * 2,
            forall|k: Seq<u8>|
                self@.shards[i].dom().contains(k) ==> (#[trigger] self@.shards[i][k]).1 <= before.max_requests,
        ensures
            self@.bounded(),
    {
    }

    /// How many buckets there are.
    pub fn total(&self) -> (n: usize)
        requires
            self.wf(),
        ensures
            n == buckets_in(self@.shards),
            n <= SHARDS * (2 * self@.budget),
    {
        let mut n: usize = 0;
        let mut i: usize = 0;
        assert(self@.shards.take(0) =~= Seq::empty());
        while i < SHARDS
            invariant
                i <= SHARDS,
                self.wf(),
                n == buckets_in(self@.shards.take(i as int)),
                n <= i * (2 * self.budget),
                self.budget <= MAX_KEYS_PER_SHARD,
            decreases SHARDS - i,
        {
            proof {
                self.shards@[i as int].lemma_count();
                assert(self@.shards[i as int] == self.shards@[i as int]@);
                assert(self@.shards.take(i + 1).drop_last() =~= self@.shards.take(i as int));
                assert((i + 1) * (2 * self.budget) == i * (2 * self.budget) + 2 * self.budget) by (nonlinear_arith);
                assert(i * (2 * self.budget) <= 64 * (2 * 15_625)) by (nonlinear_arith)
                    requires
                        i <= 64,
                        self.budget <= 15_625,
                ;
            }
            n = n + self.shards[i].len();
            i += 1;
        }
        assert(self@.shards.take(i as int) =~= self@.shards);
        n
    }
}

/// The buckets of some shards, counted.
pub open spec fn buckets_in(shards: Seq<BucketsV>) -> int
    decreases shards.len(),
{
    if shards.len() == 0 {
        0
    } else {
        buckets_in(shards.drop_last()) + shards.last().dom().len()
    }
}

// ---------- laws ----------

/// In one window a key that has its bucket gets what is left of its limit and no more:
/// each request that is let through counts one, and at the limit none is.
pub proof fn law_limit_holds_in_a_window(l: LimiterV, key: Seq<u8>, now_ms: u64)
    requires
        l.bounded(),
        l.counts(),
        l.bucket(key) is Some,
        l.window(key) == now_ms / l.window_ms,
    ensures
        l.lets(key, now_ms) <==> l.count(key) < l.max_requests,
        l.lets(key, now_ms) ==> l.after(key, now_ms).bucket(key) == Some(
            ((now_ms / l.window_ms), (l.count(key) + 1) as u64),
        ),
        !l.lets(key, now_ms) ==> l.after(key, now_ms) == l,
{
}

/// A new window starts the count again.
pub proof fn law_new_window_resets(l: LimiterV, key: Seq<u8>, now_ms: u64)
    requires
        l.bounded(),
        l.counts(),
        l.bucket(key) is Some,
        l.window(key) != now_ms / l.window_ms,
    ensures
        l.lets(key, now_ms),
        l.after(key, now_ms).bucket(key) == Some(((now_ms / l.window_ms), 1u64)),
{
}

/// A key that has its bucket never touches the bucket of another key.
pub proof fn law_keys_do_not_share(l: LimiterV, key: Seq<u8>, other: Seq<u8>, now_ms: u64)
    requires
        l.bounded(),
        other != key,
        l.bucket(key) is Some || shard_of(other) != shard_of(key),
    ensures
        l.after(key, now_ms).bucket(other) == l.bucket(other),
{
}

/// The limiter after a number of requests of one key at one time.
pub open spec fn after_requests(l: LimiterV, key: Seq<u8>, now_ms: u64, n: nat) -> LimiterV
    decreases n,
{
    if n == 0 {
        l
    } else {
        after_requests(l, key, now_ms, (n - 1) as nat).after(key, now_ms)
    }
}

/// A key that comes for the first time, to a limiter with room for it, gets its limit in
/// the window: as many requests as that are let through, and the next one is not. In the
/// next window it is let in again.
pub proof fn law_window_lets_through_the_limit(l: LimiterV, key: Seq<u8>, now_ms: u64, n: nat, later_ms: u64)
    requires
        l.bounded(),
        l.enabled,
        l.max_requests > 0,
        l.window_ms > 0,
        l.bucket(key) is None,
        l.shards[shard_of(key)].dom().len() < l.budget,
        n <= l.max_requests,
        now_ms / l.window_ms < later_ms / l.window_ms,
    ensures
        after_requests(l, key, now_ms, n).lets(key, now_ms) <==> n < l.max_requests,
        after_requests(l, key, now_ms, n).lets(key, later_ms),
        n > 0 ==> after_requests(l, key, now_ms, n).bucket(key) == Some(((now_ms / l.window_ms), n as u64)),
        after_requests(l, key, now_ms, n).window_ms == l.window_ms,
        after_requests(l, key, now_ms, n).max_requests == l.max_requests,
        after_requests(l, key, now_ms, n).counts(),
        after_requests(l, key, now_ms, n).shards.len() == 64,
    decreases n,
{
    lemma_shard(key);
    if n > 0 {
        law_window_lets_through_the_limit(l, key, now_ms, (n - 1) as nat, later_ms);
        let b = after_requests(l, key, now_ms, (n - 1) as nat);
        let m = l.shards[shard_of(key)];
        if n == 1 {
            assert(!m.dom().contains(key));
            let grown = m.insert(key, ((now_ms / l.window_ms), 1u64));
            assert(grown.dom() =~= m.dom().insert(key));
            assert(grown.dom().len() == m.dom().len() + 1);
        }
    }
}

proof fn lemma_shard(key: Seq<u8>)
    ensures
        0 <= shard_of(key) < 64,
{
}

/// A limiter that is off, or that has no limit or no window, lets everything through and
/// counts nothing.
pub proof fn law_no_limit_lets_all_through(l: LimiterV, key: Seq<u8>, now_ms: u64)
    requires
        !l.enabled || l.max_requests == 0 || l.window_ms == 0,
    ensures
        l.lets(key, now_ms),
        l.after(key, now_ms) == l,
{
}

/// A bucket of the present window is not given up for a new one while its shard holds no
/// more than twice its share: the count of a busy key stays.
pub proof fn law_present_buckets_stay(m: BucketsV, key: Seq<u8>, other: Seq<u8>, window: u64, budget: nat)
    requires
        m.dom().finite(),
        m.dom().contains(other),
        other != key,
        m[other].0 >= window,
        m.dom().insert(key).len() <= 2 * budget,
    ensures
        admitted(m, key, window, budget).dom().contains(other),
        admitted(m, key, window, budget)[other] == m[other],
        admitted(m, key, window, budget).dom().contains(key),
        admitted(m, key, window, budget)[key] == (window, 1u64),
{
    let grown = m.insert(key, (window, 1u64));
    assert(grown.dom() =~= m.dom().insert(key));
    let t = without_stale(grown, window);
    assert(t.dom().subset_of(grown.dom()));
    vstd::set_lib::lemma_len_subset(t.dom(), grown.dom());
}

} // verus!
