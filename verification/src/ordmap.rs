//! Byte strings in lexicographic order, and a map that keeps them sorted.

use vstd::prelude::*;

verus! {

/// `a` comes strictly before `b` in byte order.
pub open spec fn lex_lt(a: Seq<u8>, b: Seq<u8>) -> bool
    decreases a.len(),
{
    if b.len() == 0 {
        false
    } else if a.len() == 0 {
        true
    } else if a[0] != b[0] {
        a[0] < b[0]
    } else {
        lex_lt(a.drop_first(), b.drop_first())
    }
}

/// The strings of `keys` ascend strictly.
pub open spec fn ascending(keys: Seq<Seq<u8>>) -> bool {
    forall|i: int, j: int| 0 <= i < j < keys.len() ==> lex_lt(#[trigger] keys[i], #[trigger] keys[j])
}

pub proof fn lemma_lex_irreflexive(a: Seq<u8>)
    ensures
        !lex_lt(a, a),
    decreases a.len(),
{
    if a.len() > 0 {
        lemma_lex_irreflexive(a.drop_first());
    }
}

pub proof fn lemma_lex_transitive(a: Seq<u8>, b: Seq<u8>, c: Seq<u8>)
    requires
        lex_lt(a, b),
        lex_lt(b, c),
    ensures
        lex_lt(a, c),
    decreases a.len(),
{
    if a.len() > 0 && a[0] == b[0] && b[0] == c[0] {
        lemma_lex_transitive(a.drop_first(), b.drop_first(), c.drop_first());
    }
}

pub proof fn lemma_lex_total(a: Seq<u8>, b: Seq<u8>)
    ensures
        lex_lt(a, b) || a == b || lex_lt(b, a),
    decreases a.len(),
{
    if a.len() > 0 && b.len() > 0 && a[0] == b[0] {
        lemma_lex_total(a.drop_first(), b.drop_first());
        if a.drop_first() == b.drop_first() {
            assert(a =~= seq![a[0]] + a.drop_first());
            assert(b =~= seq![b[0]] + b.drop_first());
        }
    } else if a.len() == 0 && b.len() == 0 {
        assert(a =~= b);
    }
}

pub proof fn lemma_lex_asymmetric(a: Seq<u8>, b: Seq<u8>)
    requires
        lex_lt(a, b),
    ensures
        !lex_lt(b, a),
        a != b,
{
    lemma_lex_irreflexive(a);
    if lex_lt(b, a) {
        lemma_lex_transitive(a, b, a);
    }
}

/// Skipping a common first part leaves the order as it is.
pub proof fn lemma_lex_skip(a: Seq<u8>, b: Seq<u8>, n: int)
    requires
        0 <= n <= a.len(),
        n <= b.len(),
        a.take(n) == b.take(n),
    ensures
        lex_lt(a, b) == lex_lt(a.skip(n), b.skip(n)),
    decreases n,
{
    if n == 0 {
        assert(a.skip(0) =~= a);
        assert(b.skip(0) =~= b);
    } else {
        assert(a[0] == a.take(n)[0] && b[0] == b.take(n)[0]);
        let x = a.drop_first();
        let y = b.drop_first();
        assert(x.take(n - 1) =~= a.take(n).drop_first());
        assert(y.take(n - 1) =~= b.take(n).drop_first());
        lemma_lex_skip(x, y, n - 1);
        assert(x.skip(n - 1) =~= a.skip(n));
        assert(y.skip(n - 1) =~= b.skip(n));
    }
}

/// Where one string stands to another.
#[derive(Clone, Copy, PartialEq, Eq, Structural, Debug)]
pub enum Place {
    Before,
    Same,
    After,
}

/// Compare two byte strings.
pub fn place(a: &[u8], b: &[u8]) -> (p: Place)
    ensures
        p == Place::Before <==> lex_lt(a@, b@),
        p == Place::Same <==> a@ == b@,
        p == Place::After <==> lex_lt(b@, a@),
{
    let mut i: usize = 0;
    while i < a.len() && i < b.len() && a[i] == b[i]
        invariant
            i <= a.len(),
            i <= b.len(),
            a@.take(i as int) =~= b@.take(i as int),
        decreases a.len() - i,
    {
        i += 1;
    }
    proof {
        lemma_lex_skip(a@, b@, i as int);
        lemma_lex_skip(b@, a@, i as int);
        if i == a.len() && i == b.len() {
            assert(a@ =~= a@.take(i as int));
            assert(b@ =~= b@.take(i as int));
            lemma_lex_irreflexive(a@);
        }
    }
    if i == a.len() {
        if i == b.len() {
            Place::Same
        } else {
            Place::Before
        }
    } else if i == b.len() {
        Place::After
    } else if a[i] < b[i] {
        Place::Before
    } else {
        Place::After
    }
}

/// Equality of byte strings.
pub fn same_bytes(a: &[u8], b: &[u8]) -> (r: bool)
    ensures
        r == (a@ == b@),
{
    match place(a, b) {
        Place::Same => true,
        _ => false,
    }
}

/// The members of a set of byte strings, in ascending order.
pub open spec fn listed(d: Set<Seq<u8>>) -> Seq<Seq<u8>> {
    choose|s: Seq<Seq<u8>>| ascending(s) && lists(s, d)
}

/// Does the sequence hold just the members of the set?
pub open spec fn lists(s: Seq<Seq<u8>>, d: Set<Seq<u8>>) -> bool {
    forall|k: Seq<u8>| s.contains(k) <==> #[trigger] d.contains(k)
}

proof fn lemma_ascending_unique(a: Seq<Seq<u8>>, b: Seq<Seq<u8>>)
    requires
        ascending(a),
        ascending(b),
        forall|k: Seq<u8>| a.contains(k) <==> b.contains(k),
    ensures
        a == b,
    decreases a.len(),
{
    if a.len() == 0 {
        if b.len() > 0 {
            assert(b.contains(b[0]));
            assert(a.contains(b[0]));
        }
        assert(a =~= b);
    } else {
        assert(a.contains(a[0]));
        let j = b.index_of(a[0]);
        assert(b.contains(b[0]));
        let i = a.index_of(b[0]);
        if i > 0 && j > 0 {
            assert(lex_lt(a[0], a[i]));
            assert(lex_lt(b[0], b[j]));
            lemma_lex_asymmetric(a[0], b[0]);
        }
        assert(a[0] == b[0]);
        let x = a.drop_first();
        let y = b.drop_first();
        assert(ascending(x)) by {
            assert forall|m: int, n: int| 0 <= m < n < x.len() implies lex_lt(
                #[trigger] x[m],
                #[trigger] x[n],
            ) by {
                assert(lex_lt(a[m + 1], a[n + 1]));
            }
        }
        assert(ascending(y)) by {
            assert forall|m: int, n: int| 0 <= m < n < y.len() implies lex_lt(
                #[trigger] y[m],
                #[trigger] y[n],
            ) by {
                assert(lex_lt(b[m + 1], b[n + 1]));
            }
        }
        assert forall|k: Seq<u8>| x.contains(k) <==> y.contains(k) by {
            lemma_lex_irreflexive(k);
            if x.contains(k) {
                let m = x.index_of(k);
                assert(a[m + 1] == k);
                assert(lex_lt(a[0], a[m + 1]));
                assert(a.contains(k));
                let n = b.index_of(k);
                assert(n > 0);
                assert(y[n - 1] == k);
            }
            if y.contains(k) {
                let m = y.index_of(k);
                assert(b[m + 1] == k);
                assert(lex_lt(b[0], b[m + 1]));
                assert(b.contains(k));
                let n = a.index_of(k);
                assert(n > 0);
                assert(x[n - 1] == k);
            }
        }
        lemma_ascending_unique(x, y);
        assert(a =~= seq![a[0]] + x);
        assert(b =~= seq![b[0]] + y);
    }
}

/// An ascending sequence of a set's members is the set's list.
pub proof fn lemma_listed(s: Seq<Seq<u8>>, d: Set<Seq<u8>>)
    requires
        ascending(s),
        lists(s, d),
    ensures
        listed(d) == s,
{
    assert(ascending(s) && lists(s, d));
    let t = listed(d);
    assert(ascending(t) && lists(t, d));
    assert forall|k: Seq<u8>| s.contains(k) <==> t.contains(k) by {
        assert(s.contains(k) <==> d.contains(k));
        assert(t.contains(k) <==> d.contains(k));
    }
    lemma_ascending_unique(t, s);
}

/// An ascending sequence with one more member.
spec fn placed(s: Seq<Seq<u8>>, x: Seq<u8>) -> Seq<Seq<u8>>
    decreases s.len(),
{
    if s.len() == 0 {
        seq![x]
    } else if lex_lt(s.last(), x) {
        s.push(x)
    } else {
        placed(s.drop_last(), x).push(s.last())
    }
}

proof fn lemma_placed(s: Seq<Seq<u8>>, x: Seq<u8>)
    requires
        ascending(s),
        !s.contains(x),
    ensures
        ascending(placed(s, x)),
        forall|k: Seq<u8>| #[trigger] placed(s, x).contains(k) <==> (k == x || s.contains(k)),
    decreases s.len(),
{
    let p = placed(s, x);
    if s.len() == 0 {
        assert(p[0] == x);
    } else if lex_lt(s.last(), x) {
        assert forall|i: int, j: int| 0 <= i < j < p.len() implies lex_lt(#[trigger] p[i], #[trigger] p[j]) by {
            if j == s.len() {
                if i < s.len() - 1 {
                    assert(lex_lt(s[i], s[s.len() - 1]));
                    lemma_lex_transitive(s[i], s.last(), x);
                }
            } else {
                assert(lex_lt(s[i], s[j]));
            }
        }
        assert(p[s.len() as int] == x);
        assert forall|k: Seq<u8>| s.contains(k) implies p.contains(k) by {
            assert(p[s.index_of(k)] == k);
        }
    } else {
        let t = s.drop_last();
        assert(ascending(t)) by {
            assert forall|i: int, j: int| 0 <= i < j < t.len() implies lex_lt(
                #[trigger] t[i],
                #[trigger] t[j],
            ) by {
                assert(lex_lt(s[i], s[j]));
            }
        }
        assert forall|k: Seq<u8>| t.contains(k) implies s.contains(k) by {
            assert(s[t.index_of(k)] == k);
        }
        lemma_placed(t, x);
        let q = placed(t, x);
        lemma_lex_total(s.last(), x);
        assert(s.contains(s.last()));
        assert(lex_lt(x, s.last()));
        assert forall|i: int, j: int| 0 <= i < j < p.len() implies lex_lt(#[trigger] p[i], #[trigger] p[j]) by {
            assert(p[i] == q[i]);
            if j == q.len() {
                assert(q.contains(q[i]));
                assert(p[j] == s.last());
                if q[i] != x {
                    assert(t.contains(q[i]));
                    let m = t.index_of(q[i]);
                    assert(s[m] == q[i]);
                    assert(lex_lt(s[m], s[s.len() - 1]));
                }
            } else {
                assert(p[j] == q[j]);
                assert(lex_lt(q[i], q[j]));
            }
        }
        assert forall|k: Seq<u8>| p.contains(k) <==> (k == x || s.contains(k)) by {
            if p.contains(k) {
                let i = p.index_of(k);
                if i < q.len() {
                    assert(q.contains(k));
                }
            }
            if k == x || s.contains(k) {
                if k == s.last() {
                    assert(p[p.len() - 1] == k);
                } else {
                    if s.contains(k) {
                        let i = s.index_of(k);
                        assert(t[i] == k);
                        assert(t.contains(k));
                    }
                    assert(q.contains(k) <==> (k == x || t.contains(k)));
                    assert(p[q.index_of(k)] == k);
                }
            }
        }
    }
}

/// A finite set has a list.
pub proof fn lemma_has_list(d: Set<Seq<u8>>)
    requires
        d.finite(),
    ensures
        ascending(listed(d)),
        lists(listed(d), d),
    decreases d.len(),
{
    if d.len() == 0 {
        let s: Seq<Seq<u8>> = Seq::empty();
        assert(ascending(s));
        assert(d =~= Set::empty());
        assert(lists(s, d));
        lemma_listed(s, d);
    } else {
        let x = d.choose();
        let e = d.remove(x);
        lemma_has_list(e);
        let t = listed(e);
        assert(!e.contains(x));
        lemma_placed(t, x);
        let s = placed(t, x);
        assert forall|k: Seq<u8>| s.contains(k) <==> #[trigger] d.contains(k) by {
            assert(t.contains(k) <==> e.contains(k));
        }
        lemma_listed(s, d);
    }
}

/// A map from byte strings to values, kept in ascending key order.
pub struct OrdMap<V> {
    keys: Vec<Vec<u8>>,
    vals: Vec<V>,
}

impl<V: View> View for OrdMap<V> {
    type V = Map<Seq<u8>, V::V>;

    open spec fn view(&self) -> Map<Seq<u8>, V::V> {
        Map::new(|k: Seq<u8>| self.raw().dom().contains(k), |k: Seq<u8>| self.raw()[k]@)
    }
}

impl<V: View> OrdMap<V> {
    /// The keys, in ascending order.
    pub closed spec fn key_seq(&self) -> Seq<Seq<u8>> {
        Seq::new(self.keys@.len(), |i: int| self.keys@[i]@)
    }

    /// The map with the values themselves.
    pub closed spec fn raw(&self) -> Map<Seq<u8>, V> {
        Map::new(
            |k: Seq<u8>| self.key_seq().contains(k),
            |k: Seq<u8>| self.vals@[self.key_seq().index_of(k)],
        )
    }

    /// The keys ascend strictly and each has its value.
    pub closed spec fn wf(&self) -> bool {
        &&& self.keys@.len() == self.vals@.len()
        &&& ascending(self.key_seq())
    }

    /// What the sorted keys say of the map.
    pub proof fn lemma_keys(&self)
        requires
            self.wf(),
        ensures
            ascending(self.key_seq()),
            forall|i: int| 0 <= i < self.key_seq().len() ==> self@.dom().contains(#[trigger] self.key_seq()[i]),
            forall|k: Seq<u8>| self@.dom().contains(k) ==> self.key_seq().contains(k),
            self.key_seq() == listed(self@.dom()),
            self.raw().dom() == self@.dom(),
    {
        assert forall|i: int| 0 <= i < self.key_seq().len() implies self@.dom().contains(
            #[trigger] self.key_seq()[i],
        ) by {
            assert(self.key_seq().contains(self.key_seq()[i]));
        }
        lemma_listed(self.key_seq(), self@.dom());
        assert(self.raw().dom() =~= self@.dom());
    }

    /// There are as many keys as places.
    pub proof fn lemma_count(&self)
        requires
            self.wf(),
        ensures
            self@.dom().finite(),
            self@.dom().len() == self.key_seq().len(),
    {
        let ks = self.key_seq();
        self.lemma_keys();
        assert(ks.no_duplicates()) by {
            assert forall|i: int, j: int| 0 <= i < ks.len() && 0 <= j < ks.len() && i != j implies ks[i] != ks[j] by {
                lemma_lex_irreflexive(ks[i]);
                if i < j {
                    assert(lex_lt(ks[i], ks[j]));
                } else {
                    assert(lex_lt(ks[j], ks[i]));
                }
            }
        }
        ks.unique_seq_to_set();
        vstd::seq_lib::seq_to_set_is_finite(ks);
        assert(ks.to_set() =~= self@.dom());
    }

    proof fn lemma_at(&self, i: int)
        requires
            self.wf(),
            0 <= i < self.keys@.len(),
        ensures
            self.raw().dom().contains(self.keys@[i]@),
            self.raw()[self.keys@[i]@] == self.vals@[i],
    {
        let k = self.keys@[i]@;
        assert(self.key_seq()[i] == k);
        assert(self.key_seq().contains(k));
        let j = self.key_seq().index_of(k);
        if j < i {
            lemma_lex_irreflexive(k);
        } else if i < j {
            lemma_lex_irreflexive(k);
        }
    }

    pub fn new() -> (m: OrdMap<V>)
        ensures
            m.wf(),
            m@ == Map::<Seq<u8>, V::V>::empty(),
            m.raw() == Map::<Seq<u8>, V>::empty(),
            m.key_seq() == Seq::<Seq<u8>>::empty(),
    {
        let m = OrdMap { keys: Vec::new(), vals: Vec::new() };
        assert(m.raw() =~= Map::<Seq<u8>, V>::empty());
        assert(m@ =~= Map::<Seq<u8>, V::V>::empty());
        m
    }

    pub fn len(&self) -> (n: usize)
        ensures
            n == self.key_seq().len(),
    {
        self.keys.len()
    }

    /// The key at place `i`.
    pub fn key_at(&self, i: usize) -> (k: &Vec<u8>)
        requires
            self.wf(),
            i < self.key_seq().len(),
        ensures
            k@ == self.key_seq()[i as int],
            self@.dom().contains(k@),
    {
        proof {
            self.lemma_at(i as int);
        }
        &self.keys[i]
    }

    /// The value at place `i`.
    pub fn val_at(&self, i: usize) -> (v: &V)
        requires
            self.wf(),
            i < self.key_seq().len(),
        ensures
            v@ == self@[self.key_seq()[i as int]],
            *v == self.raw()[self.key_seq()[i as int]],
            self@.dom().contains(self.key_seq()[i as int]),
    {
        proof {
            self.lemma_at(i as int);
        }
        &self.vals[i]
    }

    /// The first place whose key is not before `key`.
    pub fn seek(&self, key: &[u8]) -> (i: usize)
        requires
            self.wf(),
        ensures
            i <= self.key_seq().len(),
            forall|j: int| 0 <= j < i ==> lex_lt(#[trigger] self.key_seq()[j], key@),
            forall|j: int| i <= j < self.key_seq().len() ==> !lex_lt(#[trigger] self.key_seq()[j], key@),
    {
        let mut lo: usize = 0;
        let mut hi: usize = self.keys.len();
        while lo < hi
            invariant
                lo <= hi <= self.keys@.len(),
                self.wf(),
                forall|j: int| 0 <= j < lo ==> lex_lt(#[trigger] self.key_seq()[j], key@),
                forall|j: int|
                    hi <= j < self.key_seq().len() ==> !lex_lt(#[trigger] self.key_seq()[j], key@),
            decreases hi - lo,
        {
            let mid: usize = lo + (hi - lo) / 2;
            assert(self.key_seq()[mid as int] == self.keys@[mid as int]@);
            match place(self.keys[mid].as_slice(), key) {
                Place::Before => {
                    proof {
                        assert forall|j: int| 0 <= j < mid + 1 implies lex_lt(
                            #[trigger] self.key_seq()[j],
                            key@,
                        ) by {
                            if j < mid {
                                lemma_lex_transitive(self.key_seq()[j], self.key_seq()[mid as int], key@);
                            }
                        }
                    }
                    lo = mid + 1;
                },
                _ => {
                    proof {
                        assert forall|j: int| mid <= j < self.key_seq().len() implies !lex_lt(
                            #[trigger] self.key_seq()[j],
                            key@,
                        ) by {
                            if mid < j && lex_lt(self.key_seq()[j], key@) {
                                lemma_lex_transitive(self.key_seq()[mid as int], self.key_seq()[j], key@);
                            }
                        }
                    }
                    hi = mid;
                },
            }
        }
        lo
    }

    /// The place of `key`, if it is there.
    pub fn find(&self, key: &[u8]) -> (r: Option<usize>)
        requires
            self.wf(),
        ensures
            r is Some <==> self@.dom().contains(key@),
            r matches Some(i) ==> i < self.key_seq().len() && self.key_seq()[i as int] == key@,
    {
        let i = self.seek(key);
        if i < self.keys.len() {
            proof {
                self.lemma_at(i as int);
                assert(self.key_seq()[i as int] == self.keys@[i as int]@);
            }
            if same_bytes(self.keys[i].as_slice(), key) {
                return Some(i);
            }
        }
        proof {
            if self.key_seq().contains(key@) {
                let j = self.key_seq().index_of(key@);
                lemma_lex_irreflexive(key@);
                if i < j {
                    lemma_lex_total(self.key_seq()[i as int], key@);
                }
            }
        }
        None
    }

    pub fn contains_key(&self, key: &[u8]) -> (r: bool)
        requires
            self.wf(),
        ensures
            r == self@.dom().contains(key@),
    {
        match self.find(key) {
            Some(_) => true,
            None => false,
        }
    }

    pub fn get(&self, key: &[u8]) -> (r: Option<&V>)
        requires
            self.wf(),
        ensures
            r is Some <==> self@.dom().contains(key@),
            r matches Some(v) ==> v@ == self@[key@] && *v == self.raw()[key@],
    {
        match self.find(key) {
            Some(i) => Some(self.val_at(i)),
            None => None,
        }
    }

    /// Put `val` under `key`, in place of what was there.
    pub fn insert(&mut self, key: Vec<u8>, val: V)
        requires
            old(self).wf(),
        ensures
            final(self).wf(),
            final(self)@ == old(self)@.insert(key@, val@),
            final(self).raw() == old(self).raw().insert(key@, val),
    {
        let ghost k = key@;
        let ghost v = val;
        let ghost before = *self;
        match self.find(key.as_slice()) {
            Some(i) => {
                self.vals.set(i, val);
                proof {
                    assert(self.key_seq() =~= before.key_seq());
                    assert forall|q: Seq<u8>| self.raw().dom().contains(q) implies self.raw()[q] == (if q == k {
                        v
                    } else {
                        before.raw()[q]
                    }) by {
                        let j = self.key_seq().index_of(q);
                        self.lemma_at(j);
                        before.lemma_at(j);
                        if q == k && j != i {
                            lemma_lex_irreflexive(k);
                        }
                    }
                    before.lemma_at(i as int);
                    assert(self.raw() =~= before.raw().insert(k, v));
                    assert(self@ =~= before@.insert(k, v@));
                }
            },
            None => {
                let i = self.seek(key.as_slice());
                proof {
                    assert forall|j: int| i <= j < before.key_seq().len() implies lex_lt(
                        k,
                        #[trigger] before.key_seq()[j],
                    ) by {
                        lemma_lex_total(before.key_seq()[j], k);
                        assert(before.key_seq().contains(before.key_seq()[j]));
                    }
                }
                self.keys.insert(i, key);
                self.vals.insert(i, val);
                proof {
                    let ks = self.key_seq();
                    assert(ks =~= before.key_seq().insert(i as int, k));
                    assert forall|a: int, b: int| 0 <= a < b < ks.len() implies lex_lt(
                        #[trigger] ks[a],
                        #[trigger] ks[b],
                    ) by {
                        let oa = if a < i { a } else { a - 1 };
                        let ob = if b < i { b } else { b - 1 };
                        if a != i && b != i {
                            assert(lex_lt(before.key_seq()[oa], before.key_seq()[ob]));
                        } else if a == i {
                            assert(lex_lt(k, before.key_seq()[ob]));
                        } else {
                            assert(lex_lt(before.key_seq()[oa], k));
                        }
                    }
                    assert forall|q: Seq<u8>| self.raw().dom().contains(q) <==> before.raw().insert(
                        k,
                        v,
                    ).dom().contains(q) by {
                        if before.raw().dom().contains(q) {
                            let j = before.key_seq().index_of(q);
                            let nj = if j < i { j } else { j + 1 };
                            assert(ks[nj] == q);
                        }
                        if q == k {
                            assert(ks[i as int] == q);
                        }
                        if self.raw().dom().contains(q) && q != k {
                            let j = ks.index_of(q);
                            let oj = if j < i { j } else { j - 1 };
                            assert(before.key_seq()[oj] == q);
                        }
                    }
                    assert forall|q: Seq<u8>| self.raw().dom().contains(q) implies self.raw()[q] == before.raw().insert(
                        k,
                        v,
                    )[q] by {
                        let j = ks.index_of(q);
                        self.lemma_at(j);
                        if q == k {
                            if j != i {
                                lemma_lex_irreflexive(k);
                            }
                        } else {
                            let oj = if j < i { j } else { j - 1 };
                            before.lemma_at(oj);
                            assert(before.keys@[oj]@ == q);
                        }
                    }
                    assert(self.raw() =~= before.raw().insert(k, v));
                    assert(self@ =~= before@.insert(k, v@));
                }
            },
        }
    }

    /// Take out what stands under `key`.
    pub fn remove(&mut self, key: &[u8]) -> (r: Option<V>)
        requires
            old(self).wf(),
        ensures
            final(self).wf(),
            final(self)@ == old(self)@.remove(key@),
            final(self).raw() == old(self).raw().remove(key@),
            r is Some <==> old(self)@.dom().contains(key@),
            r matches Some(v) ==> v@ == old(self)@[key@] && v == old(self).raw()[key@],
    {
        let ghost before = *self;
        let ghost k = key@;
        match self.find(key) {
            Some(i) => {
                self.keys.remove(i);
                let v = self.vals.remove(i);
                proof {
                    before.lemma_at(i as int);
                    let ks = self.key_seq();
                    assert(ks =~= before.key_seq().remove(i as int));
                    assert forall|a: int, b: int| 0 <= a < b < ks.len() implies lex_lt(
                        #[trigger] ks[a],
                        #[trigger] ks[b],
                    ) by {
                        let oa = if a < i { a } else { a + 1 };
                        let ob = if b < i { b } else { b + 1 };
                        assert(lex_lt(before.key_seq()[oa], before.key_seq()[ob]));
                    }
                    assert forall|q: Seq<u8>| self.raw().dom().contains(q) <==> before.raw().remove(
                        k,
                    ).dom().contains(q) by {
                        if before.raw().dom().contains(q) && q != k {
                            let j = before.key_seq().index_of(q);
                            let nj = if j < i { j } else { j - 1 };
                            assert(ks[nj] == q);
                        }
                        if self.raw().dom().contains(q) {
                            let j = ks.index_of(q);
                            let oj = if j < i { j } else { j + 1 };
                            assert(before.key_seq()[oj] == q);
                            if q == k {
                                lemma_lex_irreflexive(k);
                            }
                        }
                    }
                    assert forall|q: Seq<u8>| self.raw().dom().contains(q) implies self.raw()[q] == before.raw()[q] by {
                        let j = ks.index_of(q);
                        self.lemma_at(j);
                        let oj = if j < i { j } else { j + 1 };
                        before.lemma_at(oj);
                        assert(before.keys@[oj]@ == q);
                    }
                    assert(self.raw() =~= before.raw().remove(k));
                assert(self@ =~= before@.remove(k));
                }
                Some(v)
            },
            None => {
                assert(self.raw() =~= before.raw().remove(k));
                assert(self@ =~= before@.remove(k));
                None
            },
        }
    }
}

/// Bytes are ordered as words in a dictionary: what decides is the first place where they
/// differ, and what ends before any such place comes first.
pub proof fn law_bytes_are_ordered_as_words(a: Seq<u8>, b: Seq<u8>)
    ensures
        lex_lt(a, b) <==> exists|p: int| #[trigger] decides(a, b, p),
    decreases a.len(),
{
    if a.len() > 0 && b.len() > 0 && a[0] == b[0] {
        let (x, y) = (a.drop_first(), b.drop_first());
        law_bytes_are_ordered_as_words(x, y);
        if exists|p: int| #[trigger] decides(x, y, p) {
            let p = choose|p: int| #[trigger] decides(x, y, p);
            assert forall|i: int| 0 <= i < p + 1 implies a[i] == b[i] by {
                if i > 0 {
                    assert(x[i - 1] == y[i - 1]);
                }
            }
            assert(decides(a, b, p + 1));
        }
        if exists|p: int| #[trigger] decides(a, b, p) {
            let p = choose|p: int| #[trigger] decides(a, b, p);
            assert(p > 0);
            assert forall|i: int| 0 <= i < p - 1 implies x[i] == y[i] by {
                assert(a[i + 1] == b[i + 1]);
            }
            assert(decides(x, y, p - 1));
        }
    } else if lex_lt(a, b) {
        assert(decides(a, b, 0));
    } else if exists|p: int| #[trigger] decides(a, b, p) {
        let p = choose|p: int| #[trigger] decides(a, b, p);
        if p > 0 {
            assert(a[0] == b[0]);
        }
    }
}

/// Are the bytes the same up to a place, and the first ones less there, or at their end?
pub open spec fn decides(a: Seq<u8>, b: Seq<u8>, p: int) -> bool {
    &&& 0 <= p < b.len()
    &&& p <= a.len()
    &&& forall|i: int| 0 <= i < p ==> a[i] == b[i]
    &&& p < a.len() ==> a[p] < b[p]
}

} // verus!
