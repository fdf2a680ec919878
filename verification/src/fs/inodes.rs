//! Numbers for paths, made up on demand. They are bounded in count: where there are too
//! many, the oldest that no open handle refers to go, and are made up anew when asked
//! for.

use crate::ordmap::same_bytes;
use vstd::prelude::*;
use vstd::slice::slice_to_vec;

verus! {

/// The number of the root.
pub const ROOT_INO: u64 = 1;

/// How many numbers are kept at most, the root's among them.
pub const INO_CAP: usize = 100_000;

/// How many are kept when there are too many.
pub const INO_EVICT_TO: usize = 50_000;

/// The numbers with their paths in the order they were made up, and the next number.
pub struct Inodes {
    list: Vec<(u64, Vec<u8>)>,
    next: u64,
}

/// The numbers as a value of the model.
#[verifier::ext_equal]
pub struct InodesV {
    pub list: Seq<(u64, Seq<u8>)>,
    pub next: u64,
}

/// The views of some numbers with their paths.
pub open spec fn row_views(l: Seq<(u64, Vec<u8>)>) -> Seq<(u64, Seq<u8>)> {
    Seq::new(l.len(), |i: int| (l[i].0, l[i].1@))
}

impl View for Inodes {
    type V = InodesV;

    closed spec fn view(&self) -> InodesV {
        InodesV { list: row_views(self.list@), next: self.next }
    }
}

/// The place of a number from `i` on.
pub open spec fn ino_at(l: Seq<(u64, Seq<u8>)>, ino: u64, i: int) -> int
    decreases l.len() - i,
{
    if i < 0 || i >= l.len() {
        l.len() as int
    } else if l[i].0 == ino {
        i
    } else {
        ino_at(l, ino, i + 1)
    }
}

/// The place of a path from `i` on.
pub open spec fn path_at(l: Seq<(u64, Seq<u8>)>, path: Seq<u8>, i: int) -> int
    decreases l.len() - i,
{
    if i < 0 || i >= l.len() {
        l.len() as int
    } else if l[i].1 == path {
        i
    } else {
        path_at(l, path, i + 1)
    }
}

/// The rows without the first `n` whose numbers are not to be kept.
pub open spec fn pruned(l: Seq<(u64, Seq<u8>)>, keep: Seq<u64>, n: int) -> Seq<(u64, Seq<u8>)>
    decreases l.len(),
{
    if l.len() == 0 || n <= 0 {
        l
    } else if keep.contains(l[0].0) {
        seq![l[0]] + pruned(l.drop_first(), keep, n)
    } else {
        pruned(l.drop_first(), keep, n - 1)
    }
}

/// The rows when one more is asked for.
pub open spec fn bounded(l: Seq<(u64, Seq<u8>)>, keep: Seq<u64>) -> Seq<(u64, Seq<u8>)> {
    if l.len() + 1 >= INO_CAP {
        pruned(l, keep, l.len() + 1 - INO_EVICT_TO)
    } else {
        l
    }
}

/// The rows with a number set.
pub open spec fn with_ino(l: Seq<(u64, Seq<u8>)>, ino: u64, path: Seq<u8>) -> Seq<(u64, Seq<u8>)> {
    let i = ino_at(l, ino, 0);
    if i < l.len() {
        l.update(i, (ino, path))
    } else {
        l.push((ino, path))
    }
}

impl InodesV {
    /// The path of a number.
    pub open spec fn path(self, ino: u64) -> Option<Seq<u8>> {
        let i = ino_at(self.list, ino, 0);
        if ino == ROOT_INO {
            Some(Seq::empty())
        } else if i < self.list.len() {
            Some(self.list[i].1)
        } else {
            None
        }
    }

    /// The number of a path: the one that it has, else the next one.
    pub open spec fn number(self, path: Seq<u8>) -> u64 {
        let i = path_at(self.list, path, 0);
        if path.len() == 0 {
            ROOT_INO
        } else if i < self.list.len() {
            self.list[i].0
        } else {
            self.next
        }
    }

    /// The numbers after a path was asked for; those of `keep` stay.
    pub open spec fn asked(self, path: Seq<u8>, keep: Seq<u64>) -> InodesV {
        if path.len() == 0 || path_at(self.list, path, 0) < self.list.len() {
            self
        } else {
            InodesV {
                list: with_ino(bounded(self.list, keep), self.next, path),
                next: ((self.next + 1) % 0x1_0000_0000_0000_0000) as u64,
            }
        }
    }
}

pub proof fn lemma_at(l: Seq<(u64, Seq<u8>)>, ino: u64, path: Seq<u8>, i: int)
    requires
        0 <= i <= l.len(),
    ensures
        i <= ino_at(l, ino, i) <= l.len(),
        ino_at(l, ino, i) < l.len() ==> l[ino_at(l, ino, i)].0 == ino,
        forall|j: int| i <= j < ino_at(l, ino, i) ==> l[j].0 != ino,
        i <= path_at(l, path, i) <= l.len(),
        path_at(l, path, i) < l.len() ==> l[path_at(l, path, i)].1 == path,
        forall|j: int| i <= j < path_at(l, path, i) ==> l[j].1 != path,
    decreases l.len() - i,
{
    if i < l.len() {
        lemma_at(l, ino, path, i + 1);
    }
}

fn listed_in(l: &Vec<u64>, n: u64) -> (r: bool)
    ensures
        r == l@.contains(n),
{
    let mut i: usize = 0;
    while i < l.len()
        invariant
            i <= l@.len(),
            forall|j: int| 0 <= j < i ==> l@[j] != n,
        decreases l@.len() - i,
    {
        if l[i] == n {
            return true;
        }
        i += 1;
    }
    false
}

impl Inodes {
    pub fn new() -> (n: Inodes)
        ensures
            n@ == (InodesV { list: Seq::empty(), next: 2 }),
    {
        let n = Inodes { list: Vec::new(), next: 2 };
        assert(n@.list =~= Seq::empty());
        n
    }

    fn find_ino(&self, ino: u64) -> (i: usize)
        ensures
            i == ino_at(self@.list, ino, 0),
    {
        let ghost all = self@.list;
        let mut i: usize = 0;
        while i < self.list.len()
            invariant
                i <= self.list@.len(),
                all == row_views(self.list@),
                ino_at(all, ino, 0) == ino_at(all, ino, i as int),
            decreases self.list@.len() - i,
        {
            assert(all[i as int].0 == self.list@[i as int].0);
            if self.list[i].0 == ino {
                return i;
            }
            i += 1;
        }
        i
    }

    fn find_path(&self, path: &[u8]) -> (i: usize)
        ensures
            i == path_at(self@.list, path@, 0),
    {
        let ghost all = self@.list;
        let mut i: usize = 0;
        while i < self.list.len()
            invariant
                i <= self.list@.len(),
                all == row_views(self.list@),
                path_at(all, path@, 0) == path_at(all, path@, i as int),
            decreases self.list@.len() - i,
        {
            assert(all[i as int].1 == self.list@[i as int].1@);
            if same_bytes(self.list[i].1.as_slice(), path) {
                return i;
            }
            i += 1;
        }
        i
    }

    /// The path of a number.
    pub fn path_of(&self, ino: u64) -> (r: Option<Vec<u8>>)
        ensures
            match self@.path(ino) {
                Some(p) => r matches Some(v) && v@ == p,
                None => r is None,
            },
    {
        if ino == ROOT_INO {
            let root: Vec<u8> = Vec::new();
            assert(root@ =~= Seq::empty());
            return Some(root);
        }
        let i: usize = self.find_ino(ino);
        proof {
            lemma_at(self@.list, ino, Seq::empty(), 0);
        }
        if i < self.list.len() {
            Some(self.list[i].1.clone())
        } else {
            None
        }
    }

    /// Drop the first `n` rows whose numbers are not to be kept.
    fn prune(&mut self, keep: &Vec<u64>, n: usize)
        ensures
            final(self)@ == (InodesV { list: pruned(old(self)@.list, keep@, n as int), ..old(self)@ }),
    {
        let ghost all = self@.list;
        let mut old_list: Vec<(u64, Vec<u8>)> = Vec::new();
        std::mem::swap(&mut old_list, &mut self.list);
        let mut out: Vec<(u64, Vec<u8>)> = Vec::new();
        let mut left: usize = n;
        let mut i: usize = 0;
        proof {
            assert(all.skip(0) =~= all);
            assert(row_views(out@) + pruned(all.skip(0), keep@, left as int) =~= pruned(all, keep@, n as int));
        }
        while i < old_list.len()
            invariant
                i <= old_list@.len(),
                all == row_views(old_list@),
                row_views(out@) + pruned(all.skip(i as int), keep@, left as int) == pruned(all, keep@, n as int),
            decreases old_list@.len() - i,
        {
            let ghost had = row_views(out@);
            let ghost rest = all.skip(i as int);
            proof {
                assert(rest.drop_first() =~= all.skip(i + 1));
                assert(rest[0] == all[i as int]);
            }
            let ino: u64 = old_list[i].0;
            if left > 0 && !listed_in(keep, ino) {
                left -= 1;
            } else {
                let p = old_list[i].1.clone();
                out.push((ino, p));
                proof {
                    assert(row_views(out@) =~= had.push(all[i as int]));
                    let tail = pruned(all.skip(i + 1), keep@, left as int);
                    if left == 0 {
                        assert(had + rest =~= had.push(all[i as int]) + all.skip(i + 1));
                        assert(pruned(rest, keep@, 0) == rest);
                        assert(pruned(all.skip(i + 1), keep@, 0) == all.skip(i + 1));
                    } else {
                        assert(had + (seq![all[i as int]] + tail) =~= had.push(all[i as int]) + tail);
                    }
                }
            }
            i += 1;
        }
        proof {
            assert(all.skip(i as int) =~= Seq::empty());
            assert(row_views(out@) + Seq::empty() =~= row_views(out@));
        }
        self.list = out;
    }

    /// The number of a path; one that has none gets the next one.
    pub fn ino_for(&mut self, path: &[u8], keep: &Vec<u64>) -> (ino: u64)
        ensures
            ino == old(self)@.number(path@),
            final(self)@ == old(self)@.asked(path@, keep@),
    {
        if path.len() == 0 {
            return ROOT_INO;
        }
        let i: usize = self.find_path(path);
        proof {
            lemma_at(self@.list, 0, path@, 0);
        }
        if i < self.list.len() {
            return self.list[i].0;
        }
        let ino: u64 = self.next;
        if self.list.len() >= INO_CAP - 1 {
            let n: usize = self.list.len() - (INO_EVICT_TO - 1);
            self.prune(keep, n);
        }
        let ghost had = self@.list;
        let j: usize = self.find_ino(ino);
        proof {
            lemma_at(had, ino, path@, 0);
        }
        let row: (u64, Vec<u8>) = (ino, slice_to_vec(path));
        if j < self.list.len() {
            self.list[j] = row;
            assert(self@.list =~= had.update(j as int, (ino, path@)));
        } else {
            self.list.push(row);
            assert(self@.list =~= had.push((ino, path@)));
        }
        self.next = ino.wrapping_add(1);
        ino
    }
}

// ---------- laws ----------

/// A number that was given out leads back to its path.
pub proof fn law_number_leads_to_its_path(n: InodesV, path: Seq<u8>, keep: Seq<u64>)
    requires
        n.list.len() == 0 || forall|i: int, j: int|
            0 <= i < j < n.list.len() ==> (#[trigger] n.list[i]).0 != (#[trigger] n.list[j]).0,
        n.number(path) != ROOT_INO || path.len() == 0,
    ensures
        n.asked(path, keep).path(n.number(path)) == Some(path),
{
    let after = n.asked(path, keep);
    let ino = n.number(path);
    lemma_at(n.list, ino, path, 0);
    let i = path_at(n.list, path, 0);
    if path.len() == 0 {
        assert(path =~= Seq::empty());
    } else if i < n.list.len() {
        let k = ino_at(n.list, ino, 0);
        assert(k == i);
    } else {
        let b = bounded(n.list, keep);
        lemma_at(b, ino, path, 0);
        lemma_at(after.list, ino, path, 0);
        let k = ino_at(b, ino, 0);
        assert(after.list[k] == (ino, path));
        let m = ino_at(after.list, ino, 0);
        if m < k {
            assert(after.list[m] == b[m]);
        }
    }
}

/// A row that an open handle refers to is never dropped.
pub proof fn law_kept_rows_stay(l: Seq<(u64, Seq<u8>)>, keep: Seq<u64>, n: int, row: (u64, Seq<u8>))
    requires
        l.contains(row),
        keep.contains(row.0),
    ensures
        pruned(l, keep, n).contains(row),
    decreases l.len(),
{
    if l.len() > 0 && n > 0 {
        let j = l.index_of(row);
        let rest = l.drop_first();
        if j > 0 {
            assert(rest[j - 1] == row);
            if keep.contains(l[0].0) {
                law_kept_rows_stay(rest, keep, n, row);
                let p = pruned(rest, keep, n);
                let m = p.index_of(row);
                assert((seq![l[0]] + p)[m + 1] == row);
            } else {
                law_kept_rows_stay(rest, keep, n - 1, row);
            }
        } else {
            assert((seq![l[0]] + pruned(rest, keep, n))[0] == row);
        }
    }
}

/// How many rows are to be kept.
pub open spec fn kept_count(l: Seq<(u64, Seq<u8>)>, keep: Seq<u64>) -> int
    decreases l.len(),
{
    if l.len() == 0 {
        0
    } else {
        kept_count(l.drop_first(), keep) + if keep.contains(l[0].0) {
            1int
        } else {
            0
        }
    }
}

proof fn lemma_pruned_len(l: Seq<(u64, Seq<u8>)>, keep: Seq<u64>, n: int)
    requires
        n >= 0,
    ensures
        pruned(l, keep, n).len() <= l.len(),
        pruned(l, keep, n).len() == (if l.len() - kept_count(l, keep) < n {
            kept_count(l, keep)
        } else {
            l.len() - n
        }),
        0 <= kept_count(l, keep) <= l.len(),
    decreases l.len(),
{
    if l.len() > 0 {
        let rest = l.drop_first();
        lemma_pruned_len(rest, keep, n);
        if n > 0 {
            lemma_pruned_len(rest, keep, n - 1);
        }
    }
}

/// The numbers are bounded: whenever one is made up, no more rows are left than the
/// bound, but for those that open handles refer to.
pub proof fn law_numbers_are_bounded(n: InodesV, path: Seq<u8>, keep: Seq<u64>)
    requires
        n.asked(path, keep) != n,
    ensures
        ({
            let after = n.asked(path, keep).list;
            after.len() + 1 <= INO_CAP || after.len() <= kept_count(n.list, keep) + 1
        }),
{
    if n.list.len() + 1 >= INO_CAP {
        lemma_pruned_len(n.list, keep, n.list.len() + 1 - INO_EVICT_TO);
    }
    lemma_at(bounded(n.list, keep), n.next, path, 0);
}

/// A path that was asked for has its number from then on: asked again it is the same, and
/// nothing changes.
pub proof fn law_path_keeps_its_number(n: InodesV, path: Seq<u8>, keep: Seq<u64>)
    requires
        forall|i: int| 0 <= i < n.list.len() ==> (#[trigger] n.list[i]).0 != n.next,
    ensures
        ({
            let after = n.asked(path, keep);
            &&& after.number(path) == n.number(path)
            &&& after.asked(path, keep) == after
            &&& path.len() == 0 ==> n.number(path) == 1
        }),
{
    let after = n.asked(path, keep);
    lemma_at(n.list, n.next, path, 0);
    if path.len() > 0 && path_at(n.list, path, 0) >= n.list.len() {
        let b = bounded(n.list, keep);
        lemma_bounded_rows(n.list, keep);
        lemma_at(b, n.next, path, 0);
        let i = ino_at(b, n.next, 0);
        assert(i == b.len()) by {
            if i < b.len() {
                assert(n.list.contains(b[i]));
                assert(n.list[n.list.index_of(b[i])].0 == n.next);
            }
        }
        assert(after.list == b.push((n.next, path)));
        lemma_at(after.list, n.next, path, 0);
        let j = path_at(after.list, path, 0);
        assert(after.list[b.len() as int].1 == path);
        assert(j <= b.len()) by {
            if j > b.len() {
                assert(after.list[b.len() as int].1 != path);
            }
        }
        if j < b.len() {
            assert(after.list[j] == b[j]);
            assert(n.list.contains(b[j]));
            let k = n.list.index_of(b[j]);
            assert(n.list[k].1 == path);
        }
    }
}

proof fn lemma_bounded_rows(l: Seq<(u64, Seq<u8>)>, keep: Seq<u64>)
    ensures
        forall|i: int| 0 <= i < bounded(l, keep).len() ==> l.contains(#[trigger] bounded(l, keep)[i]),
{
    lemma_pruned_rows(l, keep, l.len() + 1 - INO_EVICT_TO);
}

proof fn lemma_pruned_rows(l: Seq<(u64, Seq<u8>)>, keep: Seq<u64>, n: int)
    ensures
        forall|i: int| 0 <= i < pruned(l, keep, n).len() ==> l.contains(#[trigger] pruned(l, keep, n)[i]),
        forall|i: int| 0 <= i < l.len() ==> l.contains(#[trigger] l[i]),
    decreases l.len(),
{
    if l.len() > 0 && n > 0 {
        let rest = l.drop_first();
        let p = pruned(l, keep, n);
        let kept = keep.contains(l[0].0);
        lemma_pruned_rows(rest, keep, if kept {
            n
        } else {
            n - 1
        });
        let q = pruned(rest, keep, if kept {
            n
        } else {
            n - 1
        });
        assert forall|i: int| 0 <= i < p.len() implies l.contains(#[trigger] p[i]) by {
            if kept && i == 0 {
                assert(l[0] == p[0]);
            } else {
                let x = if kept {
                    i - 1
                } else {
                    i
                };
                assert(p[i] == q[x]);
                assert(rest.contains(q[x]));
                let y = rest.index_of(q[x]);
                assert(l[y + 1] == p[i]);
            }
        }
    }
}

/// As long as fewer than a hundred thousand numbers are out, none is taken back: every
/// one leads where it led, but for the one that is given out next.
pub proof fn law_numbers_stay_while_there_is_room(n: InodesV, path: Seq<u8>, keep: Seq<u64>, row: (u64, Seq<u8>))
    requires
        n.list.len() + 1 < 100_000,
        n.list.contains(row),
        row.0 != n.next,
    ensures
        n.asked(path, keep).list.contains(row),
{
    lemma_at(n.list, n.next, path, 0);
    let after = n.asked(path, keep).list;
    let j = n.list.index_of(row);
    if path.len() > 0 && path_at(n.list, path, 0) >= n.list.len() {
        assert(after[j] == row);
    }
}

} // verus!
