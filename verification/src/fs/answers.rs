//! What holds of directories and of the bytes of files.

use crate::fs::laws;
use crate::fs::mesh;
use crate::fs::mesh::{Errno, FsV, HandleV, OpenMode, RowV};
use crate::fs::path;
use crate::hexes;
use crate::ordmap;
use crate::storage::entry::{CellsV, EntryV, VersionV};
use crate::storage::log;
use crate::storage::model;
use crate::storage::model::StoreV;
use crate::storage::store;
use vstd::prelude::*;

verus! {

/// The path of a name in a directory, with a slash between them; the root's path is
/// empty.
pub open spec fn joined(dir: Seq<u8>, name: Seq<u8>) -> Seq<u8> {
    if dir.len() == 0 {
        name
    } else {
        dir + seq![47u8] + name
    }
}

/// What the keys of the files below a directory start with: `fs/`, its path and a slash.
pub open spec fn below(dir: Seq<u8>) -> Seq<u8> {
    seq![102u8, 115u8, 47u8] + dir + seq![47u8]
}

/// May the name stand in a path?
pub open spec fn plain_name(name: Seq<u8>) -> bool {
    name.len() > 0 && !name.contains(47u8)
}

proof fn lemma_paths(dir: Seq<u8>, name: Seq<u8>)
    requires
        plain_name(name),
    ensures
        path::child_path(dir, name) == joined(dir, name),
        path::prefix_for(joined(dir, name)) == below(joined(dir, name)),
{
    assert(path::child_path(dir, name) =~= joined(dir, name));
    let p = joined(dir, name);
    assert(p.last() == name.last());
    assert(name.contains(name[name.len() - 1]));
    let k = path::key_for(p);
    assert(k.last() == p.last());
    assert(k.push(path::SLASH) =~= below(p));
}

proof fn lemma_keys_ascend(c: CellsV, ks: Seq<Seq<u8>>, prefix: Seq<u8>)
    requires
        ordmap::ascending(ks),
    ensures
        ordmap::ascending(store::keys_under(c, ks, prefix)),
        forall|i: int|
            0 <= i < store::keys_under(c, ks, prefix).len() ==> ks.contains(
                #[trigger] store::keys_under(c, ks, prefix)[i],
            ),
    decreases ks.len(),
{
    if ks.len() > 0 {
        let front = ks.drop_last();
        assert forall|i: int, j: int| 0 <= i < j < front.len() implies ordmap::lex_lt(
            #[trigger] front[i],
            #[trigger] front[j],
        ) by {
            assert(front[i] == ks[i] && front[j] == ks[j]);
        }
        lemma_keys_ascend(c, front, prefix);
        let had = store::keys_under(c, front, prefix);
        let l = store::keys_under(c, ks, prefix);
        assert forall|i: int| 0 <= i < had.len() implies ks.contains(#[trigger] had[i]) && ordmap::lex_lt(
            had[i],
            ks.last(),
        ) by {
            let x = front.index_of(had[i]);
            assert(front.contains(had[i]));
            assert(ks[x] == had[i]);
            assert(ordmap::lex_lt(ks[x], ks[ks.len() - 1]));
        }
        assert(ks.contains(ks[ks.len() - 1]));
        assert forall|i: int, j: int| 0 <= i < j < l.len() implies ordmap::lex_lt(#[trigger] l[i], #[trigger] l[j]) by {
            if j < had.len() {
                assert(l[i] == had[i] && l[j] == had[j]);
            } else {
                assert(l[i] == had[i]);
            }
        }
        assert forall|i: int| 0 <= i < l.len() implies ks.contains(#[trigger] l[i]) by {
            if i < had.len() {
                assert(l[i] == had[i]);
            }
        }
    }
}

/// The keys below a directory: those that a read answers, each once.
proof fn lemma_listed_below(f: FsV, s: StoreV, p: Seq<u8>)
    requires
        s.has(f.ns()),
        s.space(f.ns()).cells.index.dom().finite(),
    ensures
        f.below(s, p).no_duplicates(),
        forall|k: Seq<u8>| #[trigger]
            f.below(s, p).contains(k) <==> s.get(f.ns(), k) is Some && path::prefix_for(p).is_prefix_of(k),
{
    let c = s.space(f.ns()).cells;
    let d = c.index.dom();
    let pre = path::prefix_for(p);
    let l = f.below(s, p);
    ordmap::lemma_has_list(d);
    lemma_keys_ascend(c, ordmap::listed(d), pre);
    assert forall|i: int, j: int| 0 <= i < l.len() && 0 <= j < l.len() && i != j implies l[i] != l[j] by {
        ordmap::lemma_lex_irreflexive(l[i]);
        if i < j {
            assert(ordmap::lex_lt(l[i], l[j]));
        } else {
            assert(ordmap::lex_lt(l[j], l[i]));
        }
    }
    assert forall|k: Seq<u8>| #[trigger] l.contains(k) <==> s.get(f.ns(), k) is Some && pre.is_prefix_of(k) by {
        laws::lemma_below(f, s, p, k);
        if pre.len() <= k.len() {
            assert(k.take(pre.len() as int) =~= k.subrange(0, pre.len() as int));
        }
    }
}

/// Is the second version a copy of the first: the same value and the same expiry?
pub open spec fn copies(v: VersionV, w: VersionV) -> bool {
    v.value == w.value && v.expires_at == w.expires_at
}

/// What came of one key that was moved.
proof fn lemma_move_one(f: FsV, s: StoreV, k: Seq<u8>, to: Seq<u8>, v: VersionV, other: Seq<u8>)
    requires
        laws::last_writer_wins(f, s),
        k != to,
        s.put(f.ns(), model::put_op(to, v.value, f.clock, f.root, f.root, v.expires_at)).result is Ok,
    ensures
        ({
            let put = s.put(f.ns(), model::put_op(to, v.value, f.clock, f.root, f.root, v.expires_at));
            let del = put.store.delete(f.ns(), model::del_op(k, f.clock, f.root, f.root));
            &&& laws::last_writer_wins(f, del.store)
            &&& del.result is Ok ==> {
                &&& del.store.get(f.ns(), k) is None
                &&& del.store.get(f.ns(), to) matches Some(EntryV::Lww(w)) && copies(v, w)
                &&& other != k && other != to ==> del.store.get(f.ns(), other) == s.get(f.ns(), other)
            }
        }),
{
}

/// Keys that are moved to another prefix, none of them to a place that starts as they
/// do: each is gone, its copy stands in the new place, and every other key is as before.
#[verifier::rlimit(40)]
proof fn lemma_moved(f: FsV, s: StoreV, keys: Seq<Seq<u8>>, pre: Seq<u8>, to: Seq<u8>, k: Seq<u8>)
    requires
        laws::last_writer_wins(f, s),
        f.moved(s, keys, pre.len() as int, to).result is Ok,
        keys.no_duplicates(),
        forall|i: int| 0 <= i < keys.len() ==> pre.is_prefix_of(#[trigger] keys[i]),
        forall|i: int|
            0 <= i < keys.len() ==> s.get(f.ns(), #[trigger] keys[i]) is Some && !pre.is_prefix_of(
                to + keys[i].skip(pre.len() as int),
            ),
    ensures
        ({
            let t = f.moved(s, keys, pre.len() as int, to);
            &&& t.fs == f
            &&& laws::last_writer_wins(f, t.store)
            &&& keys.contains(k) ==> {
                &&& t.store.get(f.ns(), k) is None
                &&& s.get(f.ns(), k) matches Some(EntryV::Lww(v)) && t.store.get(
                    f.ns(),
                    to + k.skip(pre.len() as int),
                ) matches Some(EntryV::Lww(w)) && copies(v, w)
            }
            &&& !keys.contains(k) && (forall|i: int|
                0 <= i < keys.len() ==> k != to + (#[trigger] keys[i]).skip(pre.len() as int)) ==> t.store.get(f.ns(), k)
                == s.get(f.ns(), k)
        }),
    decreases keys.len(),
{
    if keys.len() > 0 {
        let n = pre.len() as int;
        let first = keys[0];
        let rest = keys.drop_first();
        let place = to + first.skip(n);
        assert(s.get(f.ns(), keys[0]) is Some);
        assert(s.get(f.ns(), first) is Some && s.get(f.ns(), first)->0 is Lww);
        let v = s.get(f.ns(), first)->0->Lww_0;
        assert(pre.is_prefix_of(keys[0]));
        assert(first != place);
        let put = s.put(f.ns(), model::put_op(place, v.value, f.clock, f.root, f.root, v.expires_at));
        let mid = put.store.delete(f.ns(), model::del_op(first, f.clock, f.root, f.root)).store;
        assert(f.moved(s, keys, n, to) == f.moved(mid, rest, n, to));
        lemma_move_one(f, s, first, place, v, k);
        assert forall|i: int| 0 <= i < rest.len() implies pre.is_prefix_of(#[trigger] rest[i]) && mid.get(
            f.ns(),
            rest[i],
        ) is Some && mid.get(f.ns(), rest[i]) == s.get(f.ns(), rest[i]) && !pre.is_prefix_of(to + rest[i].skip(n))
            && rest[i] != first && place != to + rest[i].skip(n) by {
            assert(rest[i] == keys[i + 1]);
            assert(s.get(f.ns(), keys[i + 1]) is Some);
            lemma_move_one(f, s, first, place, v, rest[i]);
            if place == to + rest[i].skip(n) {
                assert(place.skip(to.len() as int) =~= first.skip(n));
                assert((to + rest[i].skip(n)).skip(to.len() as int) =~= rest[i].skip(n));
                assert(first =~= first.take(n) + first.skip(n));
                assert(rest[i] =~= rest[i].take(n) + rest[i].skip(n));
                assert(first.take(n) =~= pre);
                assert(rest[i].take(n) =~= pre);
            }
        }
        assert(rest.no_duplicates());
        lemma_moved(f, mid, rest, pre, to, k);
        if keys.contains(k) {
            if k == first {
                assert(!rest.contains(first)) by {
                    if rest.contains(first) {
                        let i = rest.index_of(first);
                        assert(rest[i] == first);
                    }
                }
                assert forall|i: int| 0 <= i < rest.len() implies k != to + (#[trigger] rest[i]).skip(n) by {
                    assert(!pre.is_prefix_of(to + rest[i].skip(n)));
                }
                lemma_moved(f, mid, rest, pre, to, place);
                assert(!rest.contains(place)) by {
                    if rest.contains(place) {
                        let i = rest.index_of(place);
                        assert(pre.is_prefix_of(rest[i]));
                    }
                }
            } else {
                let i = keys.index_of(k);
                assert(rest[i - 1] == k);
                assert(rest.contains(k));
            }
        } else {
            if rest.contains(k) {
                assert(keys[rest.index_of(k) + 1] == k);
            }
            if forall|i: int| 0 <= i < keys.len() ==> k != to + (#[trigger] keys[i]).skip(n) {
                assert(k != to + keys[0].skip(n));
                assert forall|i: int| 0 <= i < rest.len() implies k != to + (#[trigger] rest[i]).skip(n) by {
                    assert(rest[i] == keys[i + 1]);
                }
            }
        }
    }
}

/// A renamed directory takes all that is below it along: whatever stood at a path below
/// the old name has the same bytes and the same expiry at that path below the new name,
/// at any time; nothing is left below the old name; and every key that neither stands
/// below the old name nor is a new place of one that did is as it was. No key may be
/// moved to a place below the old name, as a directory that is put into itself would.
#[verifier::rlimit(40)]
pub proof fn law_renamed_directory_keeps_its_files(
    f: FsV,
    s: StoreV,
    parent: u64,
    name: Seq<u8>,
    new_parent: u64,
    new_name: Seq<u8>,
    now_ms: u64,
    rel: Seq<u8>,
    other: Seq<u8>,
    later_ms: u64,
)
    requires
        laws::last_writer_wins(f, s),
        s.space(f.ns()).cells.index.dom().finite(),
        f.inodes.path(parent) is Some,
        f.inodes.path(new_parent) is Some,
        plain_name(name),
        plain_name(new_name),
        f.renamed(s, parent, name, new_parent, new_name, true, now_ms).result is Ok,
        ({
            let from = joined(f.inodes.path(parent)->0, name);
            let to = joined(f.inodes.path(new_parent)->0, new_name);
            &&& from != to
            &&& f.contents(s, from, now_ms) is None
            &&& forall|r: Seq<u8>|
                s.get(f.ns(), #[trigger] (below(from) + r)) is Some ==> !below(from).is_prefix_of(below(to) + r)
        }),
    ensures
        ({
            let from = joined(f.inodes.path(parent)->0, name);
            let to = joined(f.inodes.path(new_parent)->0, new_name);
            let t = f.renamed(s, parent, name, new_parent, new_name, true, now_ms);
            &&& s.get(f.ns(), below(from) + rel) is Some ==> {
                &&& s.get(f.ns(), below(from) + rel) matches Some(EntryV::Lww(v)) && t.store.get(
                    f.ns(),
                    below(to) + rel,
                ) matches Some(EntryV::Lww(w)) && w.value == v.value && w.expires_at == v.expires_at
                &&& t.fs.contents(t.store, to + seq![47u8] + rel, later_ms) == f.contents(
                    s,
                    from + seq![47u8] + rel,
                    later_ms,
                )
            }
            &&& t.store.get(f.ns(), below(from) + rel) is None
            &&& !below(from).is_prefix_of(other) && (forall|r: Seq<u8>|
                other == #[trigger] (below(to) + r) ==> s.get(f.ns(), below(from) + r) is None) ==> t.store.get(
                f.ns(),
                other,
            ) == s.get(f.ns(), other)
        }),
{
    let a = f.inodes.path(parent)->0;
    let b = f.inodes.path(new_parent)->0;
    lemma_paths(a, name);
    lemma_paths(b, new_name);
    let from = joined(a, name);
    let to = joined(b, new_name);
    let pre = below(from);
    let n = pre.len() as int;
    let keys = f.below(s, from);
    let g = f.ticked(now_ms);
    let t = f.renamed(s, parent, name, new_parent, new_name, true, now_ms);
    lemma_listed_below(f, s, from);
    assert(t == f.repathed(s, from, to, now_ms));
    let k = pre + rel;
    let place = below(to) + rel;
    assert(k.skip(n) =~= rel);
    assert(pre.is_prefix_of(k)) by {
        assert(k.subrange(0, n) =~= pre);
    }
    if f.is_dir(s, from) {
        assert(t == g.moved(s, keys, n, below(to)));
        assert forall|i: int| 0 <= i < keys.len() implies pre.is_prefix_of(#[trigger] keys[i]) && s.get(g.ns(), keys[i])
            is Some && !pre.is_prefix_of(below(to) + keys[i].skip(n)) by {
            assert(keys.contains(keys[i]));
            assert(keys[i] =~= pre + keys[i].skip(n));
        }
        lemma_moved(g, s, keys, pre, below(to), k);
        lemma_moved(g, s, keys, pre, below(to), other);
        if !pre.is_prefix_of(other) && (forall|r: Seq<u8>|
            other == #[trigger] (below(to) + r) ==> s.get(f.ns(), pre + r) is None) {
            assert(!keys.contains(other));
            assert forall|i: int| 0 <= i < keys.len() implies other != below(to) + (#[trigger] keys[i]).skip(n) by {
                assert(keys.contains(keys[i]));
                assert(keys[i] =~= pre + keys[i].skip(n));
                assert(s.get(f.ns(), pre + keys[i].skip(n)) is Some);
            }
        }
        assert(keys.contains(k) <==> s.get(f.ns(), k) is Some);
        if !keys.contains(k) {
            assert forall|i: int| 0 <= i < keys.len() implies k != below(to) + (#[trigger] keys[i]).skip(n) by {}
        }
    } else {
        assert(!keys.contains(k)) by {
            if keys.contains(k) {
                assert(keys.index_of(k) < keys.len());
            }
        }
    }
    assert(path::key_for(to + seq![47u8] + rel) =~= place);
    assert(path::key_for(from + seq![47u8] + rel) =~= k);
}

// ---------- bytes ----------

/// A read gives the bytes of the file from the offset on, as many as are asked for and
/// there.
pub proof fn law_read_gives_the_bytes(d: Seq<u8>, offset: int, size: int, i: int)
    requires
        0 <= offset,
        0 <= size,
    ensures
        ({
            let r = mesh::part(d, offset, size);
            &&& r.len() == if offset >= d.len() {
                0
            } else if offset + size > d.len() {
                d.len() - offset
            } else {
                size
            }
            &&& 0 <= i < r.len() ==> r[i] == d[offset + i]
        }),
{
}

/// A file that is given another size keeps its bytes up to it; what is added is zero.
pub proof fn law_resize_cuts_or_fills(d: Seq<u8>, n: int, i: int)
    requires
        0 <= n,
    ensures
        ({
            let r = mesh::resized(d, n);
            &&& r.len() == n
            &&& 0 <= i < n && i < d.len() ==> r[i] == d[i]
            &&& d.len() <= i < n ==> r[i] == 0
        }),
{
}

proof fn lemma_updated(hs: Seq<HandleV>, fh: u64, h: HandleV)
    requires
        mesh::handle_at(hs, fh, 0) < hs.len(),
        h.fh == fh,
    ensures
        mesh::handle_at(hs.update(mesh::handle_at(hs, fh, 0), h), fh, 0) == mesh::handle_at(hs, fh, 0),
{
    mesh::lemma_handle(hs, fh, 0);
    let k = mesh::handle_at(hs, fh, 0);
    let w = hs.update(k, h);
    mesh::lemma_handle(w, fh, 0);
    let m = mesh::handle_at(w, fh, 0);
    if m < k {
        assert(w[m] == hs[m]);
    }
    assert(w[k].fh == fh);
}

/// A write to an open file changes its buffer alone: at the offset, or behind the last
/// byte where the file was opened to append. A flush stores the buffer under the path,
/// and the file is read back with just those bytes.
#[verifier::rlimit(40)]
pub proof fn law_write_and_flush_store_the_buffer(
    f: FsV,
    s: StoreV,
    ino: u64,
    fh: u64,
    offset: u64,
    bytes: Seq<u8>,
    now_ms: u64,
    i: int,
)
    requires
        laws::last_writer_wins(f, s),
        f.inodes.path(ino) is Some,
        f.holds(fh),
        f.handle(fh).data.len() + offset + bytes.len() <= usize::MAX,
    ensures
        ({
            let was = f.handle(fh).data;
            let at = if f.handle(fh).append {
                was.len() as int
            } else {
                offset as int
            };
            &&& f.written(ino, fh, offset, bytes) matches Ok(w) && ({
                let b = w.handle(fh).data;
                let t = w.flushed(s, ino, fh, now_ms);
                let path = f.inodes.path(ino)->0;
                &&& w.holds(fh)
                &&& b.len() == if at + bytes.len() > was.len() {
                    at + bytes.len()
                } else {
                    was.len() as int
                }
                &&& at <= i < at + bytes.len() ==> b[i] == bytes[i - at]
                &&& 0 <= i < was.len() && !(at <= i < at + bytes.len()) ==> b[i] == was[i]
                &&& was.len() <= i < at ==> b[i] == 0
                &&& w.inodes == f.inodes
                &&& t.result is Ok ==> t.fs.contents(t.store, path, now_ms) == Some(b)
            })
        }),
{
    let path = f.inodes.path(ino)->0;
    let w = f.written(ino, fh, offset, bytes)->Ok_0;
    let b = mesh::overwritten(f.handle(fh).data, f.write_at(fh, offset), bytes);
    let h = HandleV { data: b, dirty: true, ..f.handle(fh) };
    mesh::lemma_handle(f.handles, fh, 0);
    lemma_updated(f.handles, fh, h);
    laws::law_partial_write_keeps_the_rest(f.handle(fh).data, f.write_at(fh, offset), bytes, i);
    assert(w.handle(fh) == h);
    let u = w.without(fh);
    assert(u.root == f.root);
    let t = u.committed(s, path, b, None, now_ms);
    if t.result is Ok {
        laws::law_stored_file_is_read_back(u, s, path, b, None, now_ms, now_ms);
        assert(laws::lasts(u.expiry(s, path, now_ms), now_ms));
    }
}

// ---------- what is shown ----------

/// What a look at a name shows: a directory where something lies below it, else the file
/// with its length, else nothing.
pub proof fn law_lookup_shows_what_is_there(f: FsV, s: StoreV, parent: u64, name: Seq<u8>, now_ms: u64)
    requires
        s.has(f.ns()),
        s.space(f.ns()).cells.index.dom().finite(),
        f.inodes.path(parent) is Some,
        plain_name(name),
    ensures
        ({
            let p = joined(f.inodes.path(parent)->0, name);
            let got = f.looked_up(s, parent, name, now_ms);
            let dir = exists|r: Seq<u8>| s.get(f.ns(), #[trigger] (below(p) + r)) is Some;
            let d = f.contents(s, p, now_ms);
            &&& got.store == s
            &&& dir ==> got.result is Ok && got.result->Ok_0.is_dir && got.result->Ok_0.perm == 0o755
                && got.result->Ok_0.nlink == 2 && got.result->Ok_0.size == 0
            &&& !dir && d is Some ==> got.result is Ok && !got.result->Ok_0.is_dir && got.result->Ok_0.perm == 0o644
                && got.result->Ok_0.nlink == 1 && got.result->Ok_0.size == d->0.len() as u64
            &&& got.result is Ok ==> got.result->Ok_0.uid == f.owner_uid && got.result->Ok_0.gid == f.owner_uid
                && got.result->Ok_0.blocks == (got.result->Ok_0.size + 511) / 512
            &&& !dir && d is None ==> got.result == Err::<mesh::Attr, Errno>(Errno::Enoent)
        }),
{
    let a = f.inodes.path(parent)->0;
    lemma_paths(a, name);
    let p = joined(a, name);
    lemma_is_dir(f, s, p);
}

/// A directory is there exactly where something lies below it.
proof fn lemma_is_dir(f: FsV, s: StoreV, p: Seq<u8>)
    requires
        s.has(f.ns()),
        s.space(f.ns()).cells.index.dom().finite(),
        path::prefix_for(p) == below(p),
    ensures
        f.is_dir(s, p) <==> exists|r: Seq<u8>| s.get(f.ns(), #[trigger] (below(p) + r)) is Some,
{
    lemma_listed_below(f, s, p);
    let pre = below(p);
    let n = pre.len() as int;
    let l = f.below(s, p);
    if f.is_dir(s, p) {
        let k = l[0];
        assert(l.contains(k));
        assert(k =~= pre + k.skip(n));
    }
    if exists|r: Seq<u8>| s.get(f.ns(), #[trigger] (pre + r)) is Some {
        let r = choose|r: Seq<u8>| s.get(f.ns(), #[trigger] (pre + r)) is Some;
        assert((pre + r).subrange(0, n) =~= pre);
        assert(l.contains(pre + r));
    }
}

/// A file that is made is there and empty, keeps the time it had where there was one
/// before, and touches no other key.
pub proof fn law_created_file_is_empty(f: FsV, s: StoreV, parent: u64, name: Seq<u8>, now_ms: u64, other: Seq<u8>)
    requires
        laws::last_writer_wins(f, s),
        f.inodes.path(parent) is Some,
        plain_name(name),
        f.created(s, parent, name, now_ms).result is Ok,
    ensures
        ({
            let p = joined(f.inodes.path(parent)->0, name);
            let t = f.created(s, parent, name, now_ms);
            let fh = t.result->Ok_0.1;
            &&& t.fs.contents(t.store, p, now_ms) == Some(Seq::<u8>::empty())
            &&& t.fs.expiry(t.store, p, now_ms) == f.expiry(s, p, now_ms)
            &&& t.result->Ok_0.0.size == 0 && !t.result->Ok_0.0.is_dir
            &&& other != seq![102u8, 115u8, 47u8] + p ==> t.store.get(f.ns(), other) == s.get(f.ns(), other)
        }),
{
    let a = f.inodes.path(parent)->0;
    lemma_paths(a, name);
    let p = joined(a, name);
    laws::law_rewrite_keeps_expiry(f, s, p, Seq::empty(), now_ms);
    laws::law_stored_file_is_read_back(f, s, p, Seq::empty(), None, now_ms, now_ms);
    assert(laws::lasts(f.expiry(s, p, now_ms), now_ms));
    assert(path::key_for(p) =~= seq![102u8, 115u8, 47u8] + p);
}

/// A directory that is made is there, empty as it is: a key with a slash at its end
/// keeps it in sight. No other key is touched.
pub proof fn law_made_directory_is_there(f: FsV, s: StoreV, parent: u64, name: Seq<u8>, now_ms: u64, other: Seq<u8>)
    requires
        laws::last_writer_wins(f, s),
        f.inodes.path(parent) is Some,
        plain_name(name),
    ensures
        ({
            let p = joined(f.inodes.path(parent)->0, name);
            let t = f.made_dir(s, parent, name, now_ms);
            &&& t.result is Ok && t.result->Ok_0.is_dir
            &&& t.store == s || (t.store.get(f.ns(), below(p)) matches Some(EntryV::Lww(v)) && v.value.len() == 0
                && v.expires_at == 0)
            &&& other != below(p) ==> t.store.get(f.ns(), other) == s.get(f.ns(), other)
        }),
{
    let a = f.inodes.path(parent)->0;
    lemma_paths(a, name);
    let p = joined(a, name);
    assert(path::key_for(p).push(path::SLASH) =~= below(p));
}

/// A file that is deleted by its name is gone, and no other key is touched.
pub proof fn law_unlinked_file_is_gone(f: FsV, s: StoreV, parent: u64, name: Seq<u8>, now_ms: u64, other: Seq<u8>)
    requires
        f.inodes.path(parent) is Some,
        plain_name(name),
        f.unlinked(s, parent, name, now_ms).result is Ok,
    ensures
        ({
            let k = seq![102u8, 115u8, 47u8] + joined(f.inodes.path(parent)->0, name);
            let t = f.unlinked(s, parent, name, now_ms);
            &&& t.store.get(f.ns(), k) is None
            &&& other != k ==> t.store.get(f.ns(), other) == s.get(f.ns(), other)
        }),
{
    lemma_paths(f.inodes.path(parent)->0, name);
    let p = joined(f.inodes.path(parent)->0, name);
    assert(path::key_for(p) =~= seq![102u8, 115u8, 47u8] + p);
}

proof fn lemma_cleared_keys(f: FsV, s: StoreV, keys: Seq<Seq<u8>>, k: Seq<u8>)
    requires
        s.has(f.ns()),
        f.cleared(s, keys).result is Ok,
    ensures
        ({
            let t = f.cleared(s, keys);
            &&& t.fs == f
            &&& t.store.has(f.ns())
            &&& keys.contains(k) ==> t.store.get(f.ns(), k) is None
            &&& !keys.contains(k) ==> t.store.get(f.ns(), k) == s.get(f.ns(), k)
        }),
    decreases keys.len(),
{
    if keys.len() > 0 {
        let del = s.delete(f.ns(), model::del_op(keys[0], f.clock, f.root, f.root));
        let rest = keys.drop_first();
        lemma_cleared_keys(f, del.store, rest, k);
        if keys.contains(k) {
            let i = keys.index_of(k);
            if i > 0 {
                assert(rest[i - 1] == k);
            }
        }
        if rest.contains(k) {
            assert(keys[rest.index_of(k) + 1] == k);
        }
        assert(keys.contains(keys[0]));
    }
}

/// A directory that is removed takes all that is below it along, and nothing else.
pub proof fn law_removed_directory_takes_its_files(
    f: FsV,
    s: StoreV,
    parent: u64,
    name: Seq<u8>,
    now_ms: u64,
    rel: Seq<u8>,
    other: Seq<u8>,
)
    requires
        s.space(f.ns()).cells.index.dom().finite(),
        f.inodes.path(parent) is Some,
        plain_name(name),
        f.removed_dir(s, parent, name, now_ms).result is Ok,
    ensures
        ({
            let p = joined(f.inodes.path(parent)->0, name);
            let t = f.removed_dir(s, parent, name, now_ms);
            &&& t.store.get(f.ns(), below(p) + rel) is None
            &&& t.store.get(f.ns(), seq![102u8, 115u8, 47u8] + p) is None
            &&& !below(p).is_prefix_of(other) && other != seq![102u8, 115u8, 47u8] + p ==> t.store.get(f.ns(), other)
                == s.get(f.ns(), other)
        }),
{
    let a = f.inodes.path(parent)->0;
    lemma_paths(a, name);
    let p = joined(a, name);
    let g = f.ticked(now_ms);
    let keys = f.below(s, p);
    let k = below(p) + rel;
    lemma_listed_below(f, s, p);
    lemma_cleared_keys(g, s, keys, k);
    lemma_cleared_keys(g, s, keys, other);
    assert(k.subrange(0, below(p).len() as int) =~= below(p));
    assert(path::key_for(p) =~= seq![102u8, 115u8, 47u8] + p);
}

// ---------- lists ----------

/// A key below a directory is shown under the first name behind the directory: as a file
/// where nothing follows the name, as a directory where a slash does.
pub proof fn law_first_name_is_shown(name: Seq<u8>, rest: Seq<u8>)
    requires
        plain_name(name),
        name != seq![46u8],
        name != seq![46u8, 46u8],
        !name.contains(0u8),
        !rest.contains(0u8),
    ensures
        path::child_of(name) == Some((name, false)),
        path::child_of(name + seq![47u8] + rest) == Some((name, true)),
{
    path::law_file_stands_below_its_directory(Seq::empty(), name);
    let k = name + seq![47u8] + rest;
    assert forall|i: int| 0 <= i < name.len() implies k[i] != 47u8 by {
        assert(k[i] == name[i]);
        assert(name.contains(name[i]));
    }
    assert(k.take(name.len() as int) =~= name);
    assert(!k.contains(0u8)) by {
        if k.contains(0u8) {
            let i = k.index_of(0u8);
            if i < name.len() {
                assert(name[i] == 0u8);
                assert(name.contains(0u8));
            } else if i > name.len() {
                assert(rest[i - name.len() - 1] == 0u8);
                assert(rest.contains(0u8));
            }
        }
    }
    lemma_slash_from(k, name.len() as int, 0);
}

proof fn lemma_slash_from(k: Seq<u8>, n: int, i: int)
    requires
        0 <= i <= n < k.len(),
        k[n] == 47u8,
        forall|j: int| i <= j < n ==> #[trigger] k[j] != 47u8,
    ensures
        path::slash_at(k, i) == n,
    decreases n - i,
{
    if i < n {
        lemma_slash_from(k, n, i + 1);
    }
}

proof fn lemma_kids(keys: Seq<Seq<u8>>, n: int)
    ensures
        mesh::kids(keys, n).dom().finite(),
        forall|k: Seq<u8>| #[trigger]
            keys.contains(k) && path::child_of(k.skip(n)) is Some ==> mesh::kids(keys, n).dom().contains(
                (path::child_of(k.skip(n))->0).0,
            ),
        forall|x: Seq<u8>| #[trigger]
            mesh::kids(keys, n).dom().contains(x) ==> exists|i: int|
                0 <= i < keys.len() && path::child_of((#[trigger] keys[i]).skip(n)) == Some((x, mesh::kids(keys, n)[x])),
    decreases keys.len(),
{
    if keys.len() > 0 {
        let front = keys.drop_last();
        let last = keys[keys.len() - 1];
        lemma_kids(front, n);
        let m = mesh::kids(keys, n);
        let had = mesh::kids(front, n);
        assert forall|k: Seq<u8>| #[trigger] keys.contains(k) && path::child_of(k.skip(n)) is Some implies m.dom().contains(
            (path::child_of(k.skip(n))->0).0,
        ) by {
            let i = keys.index_of(k);
            if i < front.len() {
                assert(front[i] == k);
                assert(front.contains(k));
            }
        }
        assert forall|x: Seq<u8>| #[trigger] m.dom().contains(x) implies exists|i: int|
            0 <= i < keys.len() && path::child_of((#[trigger] keys[i]).skip(n)) == Some((x, m[x])) by {
            if path::child_of(last.skip(n)) is Some && (path::child_of(last.skip(n))->0).0 == x {
                assert(path::child_of(keys[keys.len() - 1].skip(n)) == Some((x, m[x])));
            } else {
                assert(had.dom().contains(x));
                let i = choose|i: int|
                    0 <= i < front.len() && path::child_of((#[trigger] front[i]).skip(n)) == Some((x, had[x]));
                assert(keys[i] == front[i]);
            }
        }
    }
}

/// The list of a directory starts with itself and the one above, and then holds the
/// first name of every key below it, each once and in order, and no other name; the
/// rows are numbered from 1 on, and a list that starts behind a number goes on with the
/// next row.
#[verifier::rlimit(40)]
pub proof fn law_directory_lists_its_names(f: FsV, s: StoreV, dir: Seq<u8>, name: Seq<u8>, offset: u64)
    requires
        s.has(f.ns()),
        s.space(f.ns()).cells.index.dom().finite(),
        f.rows(s, dir).len() <= u64::MAX,
    ensures
        ({
            let rows = f.rows(s, dir);
            let pre = path::prefix_for(dir);
            &&& rows.len() >= 2 && rows[0].name == seq![46u8] && rows[1].name == seq![46u8, 46u8] && rows[0].is_dir
                && rows[1].is_dir
            &&& forall|i: int| 0 <= i < rows.len() ==> (#[trigger] rows[i]).offset == i + 1
            &&& forall|i: int, j: int|
                2 <= i < j < rows.len() ==> ordmap::lex_lt((#[trigger] rows[i]).name, (#[trigger] rows[j]).name)
            &&& forall|i: int|
                #![trigger rows[i]]
                2 <= i < rows.len() ==> exists|k: Seq<u8>|
                    pre.is_prefix_of(k) && s.get(f.ns(), k) is Some && #[trigger] path::child_of(k.skip(pre.len() as int))
                        == Some((rows[i].name, rows[i].is_dir))
            &&& forall|k: Seq<u8>|
                pre.is_prefix_of(k) && s.get(f.ns(), k) is Some && #[trigger] path::child_of(k.skip(pre.len() as int))
                    is Some ==> laws::names_row(rows, (path::child_of(k.skip(pre.len() as int))->0).0)
            &&& offset < rows.len() ==> mesh::rows_behind(rows, offset).len() == rows.len() - offset && mesh::rows_behind(
                rows,
                offset,
            )[0].offset == offset + 1
            &&& offset >= rows.len() ==> mesh::rows_behind(rows, offset).len() == 0
        }),
{
    let pre = path::prefix_for(dir);
    let n = pre.len() as int;
    let keys = f.below(s, dir);
    lemma_listed_below(f, s, dir);
    lemma_kids(keys, n);
    let m = mesh::kids(keys, n);
    ordmap::lemma_has_list(m.dom());
    let ks = ordmap::listed(m.dom());
    let rows = f.rows(s, dir);
    assert(rows.len() == ks.len() + 2);
    assert forall|i: int| 0 <= i < rows.len() implies (#[trigger] rows[i]).offset == i + 1 by {
        if i >= 2 {
            assert(rows[i].offset == log::cap64(i - 2 + 3) as u64);
        }
    }
    if offset < rows.len() {
        assert(mesh::rows_behind(rows, offset)[0] == rows[offset as int]);
    }
    assert forall|i: int, j: int| 2 <= i < j < rows.len() implies ordmap::lex_lt(
        (#[trigger] rows[i]).name,
        (#[trigger] rows[j]).name,
    ) by {
        assert(ordmap::lex_lt(ks[i - 2], ks[j - 2]));
    }
    assert forall|i: int| #![trigger rows[i]] 2 <= i < rows.len() implies exists|k: Seq<u8>|
        pre.is_prefix_of(k) && s.get(f.ns(), k) is Some && #[trigger] path::child_of(k.skip(n)) == Some(
            (rows[i].name, rows[i].is_dir),
        ) by {
        let x = ks[i - 2];
        assert(ks.contains(x));
        assert(m.dom().contains(x));
        let j = choose|j: int| 0 <= j < keys.len() && path::child_of((#[trigger] keys[j]).skip(n)) == Some((x, m[x]));
        assert(keys.contains(keys[j]));
        assert(path::child_of(keys[j].skip(n)) == Some((rows[i].name, rows[i].is_dir)));
    }
    assert forall|k: Seq<u8>|
        pre.is_prefix_of(k) && s.get(f.ns(), k) is Some && #[trigger] path::child_of(k.skip(n)) is Some implies laws::names_row(
        rows,
        (path::child_of(k.skip(n))->0).0,
    ) by {
        assert(keys.contains(k));
        let x = (path::child_of(k.skip(n))->0).0;
        assert(m.dom().contains(x));
        assert(ks.contains(x));
        let j = ks.index_of(x);
        assert(rows[j + 2].name == x);
    }
}

// ---------- numbers ----------

/// What a look at a number shows is what a look at its path shows: the root is always a
/// directory; else a directory where something lies below it, else the file with its
/// length and its time, else nothing. A number without a path is a fault.
pub proof fn law_look_at_a_number_shows_its_path(f: FsV, s: StoreV, ino: u64, now_ms: u64)
    requires
        s.has(f.ns()),
        s.space(f.ns()).cells.index.dom().finite(),
        f.inodes.path(ino) matches Some(p) ==> p.len() == 0 || p.last() != 47u8,
    ensures
        ({
            let got = f.looked_at(s, ino, now_ms);
            let p = f.inodes.path(ino)->0;
            let dir = exists|r: Seq<u8>| s.get(f.ns(), #[trigger] (below(p) + r)) is Some;
            let a = got.result->Ok_0;
            &&& got.store == s
            &&& f.inodes.path(ino) is None <==> got.result == Err::<mesh::Attr, Errno>(Errno::Eio)
            &&& ino == 1 ==> got.result is Ok && a.is_dir
            &&& ino != 1 && f.inodes.path(ino) is Some && p.len() > 0 ==> {
                &&& dir ==> got.result is Ok && a.is_dir
                &&& !dir ==> match s.get(f.ns(), seq![102u8, 115u8, 47u8] + p) {
                    Some(EntryV::Lww(v)) => if v.expires_at == 0 || now_ms < v.expires_at {
                        got.result is Ok && !a.is_dir && a.size == v.value.len() as u64 && a.mtime_secs == v.hlc / 1000
                    } else {
                        got.result == Err::<mesh::Attr, Errno>(Errno::Enoent)
                    },
                    None => got.result == Err::<mesh::Attr, Errno>(Errno::Enoent),
                    _ => true,
                }
            }
        }),
{
    if f.inodes.path(ino) is Some {
        let p = f.inodes.path(ino)->0;
        if p.len() > 0 {
            let k = path::key_for(p);
            assert(k.last() == p.last());
            assert(k.push(path::SLASH) =~= below(p));
            lemma_is_dir(f, s, p);
            assert(k =~= seq![102u8, 115u8, 47u8] + p);
        }
    }
}

/// A file that is opened for writing starts with the bytes it has, or with none where it
/// is opened to be cut; opening stores nothing, and what is not there cannot be opened.
pub proof fn law_open_loads_the_file(f: FsV, s: StoreV, ino: u64, mode: OpenMode, now_ms: u64)
    requires
        !f.holds(f.next_fh),
    ensures
        ({
            let t = f.opened(s, ino, mode, now_ms);
            let p = f.inodes.path(ino);
            &&& t.store == s
            &&& p is None ==> t.result == Err::<u64, Errno>(Errno::Eio)
            &&& p is Some && f.contents(s, p->0, now_ms) is None ==> t.result == Err::<u64, Errno>(Errno::Enoent)
            &&& p is Some && f.contents(s, p->0, now_ms) is Some ==> {
                &&& !mode.write ==> t.result == Ok::<u64, Errno>(0) && t.fs == f
                &&& mode.write ==> {
                    &&& t.result == Ok::<u64, Errno>(f.next_fh)
                    &&& t.fs.holds(f.next_fh)
                    &&& t.fs.handle(f.next_fh).ino == ino
                    &&& t.fs.handle(f.next_fh).append == mode.append
                    &&& mode.trunc ==> t.fs.handle(f.next_fh).data.len() == 0
                    &&& !mode.trunc ==> t.fs.handle(f.next_fh).data == f.contents(s, p->0, now_ms)->0
                }
            }
        }),
{
    let t = f.opened(s, ino, mode, now_ms);
    let fh = f.next_fh;
    mesh::lemma_handle(f.handles, fh, 0);
    if t.result is Ok && mode.write {
        let g = t.fs;
        mesh::lemma_handle(g.handles, fh, 0);
        let k = mesh::handle_at(g.handles, fh, 0);
        let n = f.handles.len() as int;
        assert(g.handles.len() == n + 1);
        assert(g.handles[n].fh == fh);
        if k < n {
            assert(g.handles[k] == f.handles[k]);
        }
        assert(k == n);
    }
}

/// A file that is given another size has it: in the buffer of the handle where one is
/// given and open, and then nothing is stored; else in the store, where the file reads
/// back with its bytes up to the new size and zeros behind them.
#[verifier::rlimit(40)]
pub proof fn law_size_is_set(f: FsV, s: StoreV, ino: u64, n: u64, fh: Option<u64>, now_ms: u64, i: int)
    requires
        laws::last_writer_wins(f, s),
        s.space(f.ns()).cells.index.dom().finite(),
        f.inodes.path(ino) is Some,
        ino != 1,
        !f.is_dir(s, f.inodes.path(ino)->0),
        f.contents(s, f.inodes.path(ino)->0, now_ms) is Some,
        n <= usize::MAX,
    ensures
        ({
            let p = f.inodes.path(ino)->0;
            let t = f.changed(s, ino, Some(n), fh, now_ms);
            let in_buffer = fh is Some && f.holds(fh->0);
            let was = if in_buffer {
                f.handle(fh->0).data
            } else {
                f.contents(s, p, now_ms)->0
            };
            let now = if in_buffer {
                t.fs.handle(fh->0).data
            } else {
                t.fs.contents(t.store, p, now_ms)->0
            };
            &&& in_buffer ==> t.store == s && t.result is Ok && t.result->Ok_0.size == n
            &&& !in_buffer && t.result is Ok ==> t.fs.contents(t.store, p, now_ms) is Some
            &&& in_buffer || t.result is Ok ==> {
                &&& now.len() == n
                &&& 0 <= i < n && i < was.len() ==> now[i] == was[i]
                &&& was.len() <= i < n ==> now[i] == 0
            }
        }),
{
    let p = f.inodes.path(ino)->0;
    if fh is Some && f.holds(fh->0) {
        let h = f.handle(fh->0);
        let next = HandleV { data: mesh::resized(h.data, n as int), dirty: h.dirty || n != h.data.len(), ..h };
        mesh::lemma_handle(f.handles, fh->0, 0);
        lemma_updated(f.handles, fh->0, next);
        assert(f.sized(s, ino, p, n, fh, now_ms).fs.handle(fh->0) == next);
        law_resize_cuts_or_fills(h.data, n as int, i);
    } else {
        let d = f.contents(s, p, now_ms)->0;
        let cut = mesh::resized(d, n as int);
        law_resize_cuts_or_fills(d, n as int, i);
        let put = f.committed(s, p, cut, None, now_ms);
        if put.result is Ok {
            laws::law_stored_file_is_read_back(f, s, p, cut, None, now_ms, now_ms);
            assert(laws::lasts(f.expiry(s, p, now_ms), now_ms));
        }
    }
}

/// Every file that is opened for writing gets a handle of its own number.
pub proof fn law_handles_have_their_own_numbers(f: FsV, s: StoreV, ino: u64, other: u64, mode: OpenMode, now_ms: u64)
    requires
        mode.write,
        f.opened(s, ino, mode, now_ms).result is Ok,
        f.opened(s, ino, mode, now_ms).fs.opened(s, other, mode, now_ms).result is Ok,
    ensures
        ({
            let one = f.opened(s, ino, mode, now_ms);
            one.result->Ok_0 != one.fs.opened(s, other, mode, now_ms).result->Ok_0
        }),
{
}

/// A row of a list that stands for a file past its expiry is left out; one of a directory,
/// or of a file that lasts, is shown.
pub proof fn law_expired_row_is_left_out(f: FsV, s: StoreV, dir: Seq<u8>, row: RowV, v: VersionV, now_ms: u64)
    requires
        plain_name(row.name),
        s.get(f.ns(), seq![102u8, 115u8, 47u8] + joined(dir, row.name)) == Some(EntryV::Lww(v)),
    ensures
        f.row_shows(s, dir, row, now_ms) <==> row.is_dir || v.expires_at == 0 || now_ms < v.expires_at,
{
    lemma_paths(dir, row.name);
    let p = joined(dir, row.name);
    assert(path::key_for(p) =~= seq![102u8, 115u8, 47u8] + p);
}

/// The tree is the namespace of the host's own key.
pub proof fn law_tree_is_the_hosts_own_namespace(f: FsV)
    ensures
        f.ns() == seq!['u', '/'] + hexes::hex_text(f.root),
{
    reveal_strlit("u/");
    assert("u/"@ =~= seq!['u', '/']);
}

} // verus!
