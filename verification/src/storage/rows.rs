//! The rows of one secondary index: pairs of a field value and a key, in order.

use crate::ordmap;
use crate::ordmap::{place, same_bytes, Place};
use vstd::prelude::*;
use vstd::slice::slice_to_vec;

verus! {

/// A field value and the key it is found under.
pub type RowV = (Seq<u8>, Seq<u8>);

/// Order of rows: by field value, then by key.
pub open spec fn row_lt(a: RowV, b: RowV) -> bool {
    ordmap::lex_lt(a.0, b.0) || (a.0 == b.0 && ordmap::lex_lt(a.1, b.1))
}

/// The rows ascend strictly.
pub open spec fn rows_ascend(s: Seq<RowV>) -> bool {
    forall|i: int, j: int| 0 <= i < j < s.len() ==> row_lt(#[trigger] s[i], #[trigger] s[j])
}

/// The views of some rows.
pub open spec fn row_views(s: Seq<(Vec<u8>, Vec<u8>)>) -> Seq<RowV> {
    Seq::new(s.len(), |i: int| (s[i].0@, s[i].1@))
}

proof fn lemma_row_irreflexive(a: RowV)
    ensures
        !row_lt(a, a),
{
    ordmap::lemma_lex_irreflexive(a.0);
    ordmap::lemma_lex_irreflexive(a.1);
}

proof fn lemma_row_transitive(a: RowV, b: RowV, c: RowV)
    requires
        row_lt(a, b),
        row_lt(b, c),
    ensures
        row_lt(a, c),
{
    if ordmap::lex_lt(a.0, b.0) {
        if ordmap::lex_lt(b.0, c.0) {
            ordmap::lemma_lex_transitive(a.0, b.0, c.0);
        }
    } else if !ordmap::lex_lt(b.0, c.0) {
        ordmap::lemma_lex_transitive(a.1, b.1, c.1);
    }
}

proof fn lemma_row_total(a: RowV, b: RowV)
    ensures
        row_lt(a, b) || a == b || row_lt(b, a),
{
    ordmap::lemma_lex_total(a.0, b.0);
    ordmap::lemma_lex_total(a.1, b.1);
}

fn row_place(a: &(Vec<u8>, Vec<u8>), fv: &[u8], key: &[u8]) -> (r: Place)
    ensures
        r is Before <==> row_lt((a.0@, a.1@), (fv@, key@)),
        r is Same <==> (a.0@, a.1@) == (fv@, key@),
        r is After <==> row_lt((fv@, key@), (a.0@, a.1@)),
{
    proof {
        ordmap::lemma_lex_irreflexive(a.0@);
        ordmap::lemma_lex_irreflexive(a.1@);
        if ordmap::lex_lt(a.0@, fv@) && ordmap::lex_lt(fv@, a.0@) {
            ordmap::lemma_lex_transitive(a.0@, fv@, a.0@);
        }
        if ordmap::lex_lt(a.1@, key@) && ordmap::lex_lt(key@, a.1@) {
            ordmap::lemma_lex_transitive(a.1@, key@, a.1@);
        }
    }
    match place(a.0.as_slice(), fv) {
        Place::Before => Place::Before,
        Place::After => Place::After,
        Place::Same => place(a.1.as_slice(), key),
    }
}

/// The rows of one field.
#[derive(Debug)]
pub struct Rows {
    rows: Vec<(Vec<u8>, Vec<u8>)>,
}

impl View for Rows {
    type V = Set<RowV>;

    open spec fn view(&self) -> Set<RowV> {
        Set::new(|p: RowV| self.row_seq().contains(p))
    }
}

impl Rows {
    /// The rows in order.
    pub closed spec fn row_seq(&self) -> Seq<RowV> {
        row_views(self.rows@)
    }

    /// The rows ascend strictly.
    pub closed spec fn wf(&self) -> bool {
        rows_ascend(self.row_seq())
    }

    pub fn new() -> (r: Rows)
        ensures
            r.wf(),
            r@ == Set::<RowV>::empty(),
    {
        let r = Rows { rows: Vec::new() };
        assert(r@ =~= Set::<RowV>::empty());
        r
    }

    /// The first place whose row is not before the given one.
    fn seek(&self, fv: &[u8], key: &[u8]) -> (i: usize)
        requires
            self.wf(),
        ensures
            i <= self.rows@.len(),
            forall|j: int| 0 <= j < i ==> row_lt(#[trigger] self.row_seq()[j], (fv@, key@)),
            forall|j: int| i <= j < self.rows@.len() ==> !row_lt(#[trigger] self.row_seq()[j], (fv@, key@)),
    {
        let ghost p = (fv@, key@);
        let ghost s = self.row_seq();
        let mut lo: usize = 0;
        let mut hi: usize = self.rows.len();
        while lo < hi
            invariant
                lo <= hi <= self.rows@.len(),
                self.wf(),
                s == self.row_seq(),
                p == (fv@, key@),
                forall|j: int| 0 <= j < lo ==> row_lt(#[trigger] s[j], p),
                forall|j: int| hi <= j < s.len() ==> !row_lt(#[trigger] s[j], p),
            decreases hi - lo,
        {
            let mid: usize = lo + (hi - lo) / 2;
            assert(s[mid as int] == (self.rows@[mid as int].0@, self.rows@[mid as int].1@));
            match row_place(&self.rows[mid], fv, key) {
                Place::Before => {
                    proof {
                        assert forall|j: int| 0 <= j < mid + 1 implies row_lt(#[trigger] s[j], p) by {
                            if j < mid {
                                lemma_row_transitive(s[j], s[mid as int], p);
                            }
                        }
                    }
                    lo = mid + 1;
                },
                _ => {
                    proof {
                        lemma_row_irreflexive(p);
                        assert forall|j: int| mid <= j < s.len() implies !row_lt(#[trigger] s[j], p) by {
                            if mid < j && row_lt(s[j], p) {
                                lemma_row_transitive(s[mid as int], s[j], p);
                            }
                            if mid == j && row_lt(s[j], p) && row_lt(p, s[j]) {
                                lemma_row_transitive(p, s[j], p);
                            }
                        }
                    }
                    hi = mid;
                },
            }
        }
        lo
    }

    /// Put a row in, if it is not there.
    pub fn insert(&mut self, fv: &[u8], key: &[u8])
        requires
            old(self).wf(),
        ensures
            final(self).wf(),
            final(self)@ == old(self)@.insert((fv@, key@)),
    {
        let ghost p = (fv@, key@);
        let ghost before = *self;
        let ghost s = before.row_seq();
        let i = self.seek(fv, key);
        if i < self.rows.len() && same_bytes(self.rows[i].0.as_slice(), fv) && same_bytes(
            self.rows[i].1.as_slice(),
            key,
        ) {
            assert(s[i as int] == p);
            assert(before@ =~= before@.insert(p));
            return;
        }
        self.rows.insert(i, (slice_to_vec(fv), slice_to_vec(key)));
        proof {
            let t = self.row_seq();
            assert(t =~= s.insert(i as int, p));
            assert forall|j: int| i <= j < s.len() implies row_lt(p, #[trigger] s[j]) by {
                lemma_row_total(s[j], p);
                if s[j] == p {
                    if j > i {
                        assert(row_lt(s[i as int], s[j]));
                    }
                    assert(s[i as int] == (before.rows@[i as int].0@, before.rows@[i as int].1@));
                }
            }
            assert forall|a: int, b: int| 0 <= a < b < t.len() implies row_lt(#[trigger] t[a], #[trigger] t[b]) by {
                let oa = if a < i { a } else { a - 1 };
                let ob = if b < i { b } else { b - 1 };
                if a != i && b != i {
                    assert(row_lt(s[oa], s[ob]));
                } else if a == i {
                    assert(row_lt(p, s[ob]));
                } else {
                    assert(row_lt(s[oa], p));
                }
            }
            assert forall|q: RowV| t.contains(q) <==> s.contains(q) || q == p by {
                if s.contains(q) {
                    let j = s.index_of(q);
                    let nj = if j < i { j } else { j + 1 };
                    assert(t[nj] == q);
                }
                if q == p {
                    assert(t[i as int] == q);
                }
                if t.contains(q) && q != p {
                    let j = t.index_of(q);
                    let oj = if j < i { j } else { j - 1 };
                    assert(s[oj] == q);
                }
            }
            assert(self@ =~= before@.insert(p));
        }
    }

    /// Take out the rows of a key.
    pub fn drop_key(&mut self, key: &[u8])
        requires
            old(self).wf(),
        ensures
            final(self).wf(),
            final(self)@ == old(self)@.filter(|p: RowV| p.1 != key@),
    {
        let ghost before = *self;
        let mut i: usize = 0;
        while i < self.rows.len()
            invariant
                i <= self.rows@.len(),
                self.wf(),
                forall|j: int| 0 <= j < i ==> (#[trigger] self.row_seq()[j]).1 != key@,
                forall|q: RowV| q.1 != key@ ==> (#[trigger] before@.contains(q) <==> self@.contains(q)),
                forall|q: RowV| #[trigger] self@.contains(q) ==> before@.contains(q),
            decreases self.rows@.len() - i,
        {
            let ghost s = self.row_seq();
            let ghost was = *self;
            if same_bytes(self.rows[i].1.as_slice(), key) {
                self.rows.remove(i);
                proof {
                    let t = self.row_seq();
                    assert(t =~= s.remove(i as int));
                    assert forall|a: int, b: int| 0 <= a < b < t.len() implies row_lt(
                        #[trigger] t[a],
                        #[trigger] t[b],
                    ) by {
                        let oa = if a < i { a } else { a + 1 };
                        let ob = if b < i { b } else { b + 1 };
                        assert(row_lt(s[oa], s[ob]));
                    }
                    assert forall|j: int| 0 <= j < i implies (#[trigger] t[j]).1 != key@ by {
                        assert(t[j] == s[j]);
                    }
                    assert forall|q: RowV| #[trigger] self@.contains(q) implies before@.contains(q) by {
                        let j = t.index_of(q);
                        let oj = if j < i { j } else { j + 1 };
                        assert(s[oj] == q);
                        assert(was@.contains(q));
                    }
                    assert forall|q: RowV| q.1 != key@ implies (#[trigger] before@.contains(q) <==> self@.contains(
                        q,
                    )) by {
                        if before@.contains(q) {
                            assert(was@.contains(q));
                            let j = s.index_of(q);
                            let nj = if j < i { j } else { j - 1 };
                            assert(s[i as int] == (was.rows@[i as int].0@, was.rows@[i as int].1@));
                            assert(t[nj] == q);
                        }
                        if self@.contains(q) {
                            assert(before@.contains(q));
                        }
                    }
                }
            } else {
                assert(s[i as int] == (self.rows@[i as int].0@, self.rows@[i as int].1@));
                i += 1;
            }
        }
        proof {
            assert forall|q: RowV| self@.contains(q) implies q.1 != key@ by {
                let j = self.row_seq().index_of(q);
                assert(self.row_seq()[j].1 != key@);
            }
            assert(self@ =~= before@.filter(|p: RowV| p.1 != key@));
        }
    }

    /// The rows whose field value is not before `start`, in order.
    pub fn from(&self, start: &[u8]) -> (r: Vec<(Vec<u8>, Vec<u8>)>)
        requires
            self.wf(),
        ensures
            rows_ascend(row_views(r@)),
            forall|p: RowV| #[trigger]
                row_views(r@).contains(p) <==> self@.contains(p) && !ordmap::lex_lt(p.0, start@),
    {
        let none: Vec<u8> = Vec::new();
        let i = self.seek(start, none.as_slice());
        let ghost s = self.row_seq();
        let mut out: Vec<(Vec<u8>, Vec<u8>)> = Vec::new();
        let mut j: usize = i;
        while j < self.rows.len()
            invariant
                i <= j <= self.rows@.len(),
                s == self.row_seq(),
                row_views(out@) == s.subrange(i as int, j as int),
            decreases self.rows@.len() - j,
        {
            let ghost prev = row_views(out@);
            out.push((slice_to_vec(self.rows[j].0.as_slice()), slice_to_vec(self.rows[j].1.as_slice())));
            proof {
                assert(row_views(out@) =~= prev.push(s[j as int]));
                assert(row_views(out@) =~= s.subrange(i as int, j + 1));
            }
            j += 1;
        }
        proof {
            let t = row_views(out@);
            assert forall|p: RowV| #[trigger] t.contains(p) <==> self@.contains(p) && !ordmap::lex_lt(
                p.0,
                start@,
            ) by {
                if t.contains(p) {
                    let k = t.index_of(p);
                    assert(s[i + k] == p);
                    assert(!row_lt(s[i + k], (start@, none@)));
                }
                if self@.contains(p) && !ordmap::lex_lt(p.0, start@) {
                    let k = s.index_of(p);
                    if k < i {
                        assert(row_lt(s[k], (start@, none@)));
                        assert(ordmap::lex_lt(p.1, none@));
                    }
                    assert(t[k - i] == p);
                }
            }
            assert forall|a: int, b: int| 0 <= a < b < t.len() implies row_lt(#[trigger] t[a], #[trigger] t[b]) by {
                assert(row_lt(s[i + a], s[i + b]));
            }
        }
        out
    }
}

} // verus!
