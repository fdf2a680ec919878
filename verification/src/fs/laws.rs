//! What holds of the tree as a whole.

use crate::fs::inodes;
use crate::fs::mesh;
use crate::fs::mesh::{Errno, FsV, HandleV, OpenMode, RowV};
use crate::fs::path;
use crate::ordmap;
use crate::storage::entry;
use crate::storage::entry::EntryV;
use crate::storage::model;
use crate::storage::model::StoreV;
use crate::storage::store;
use vstd::prelude::*;

verus! {

/// Does the last writer of a file win?
pub open spec fn last_writer_wins(f: FsV, s: StoreV) -> bool {
    s.has(f.ns()) && s.space(f.ns()).policy is Lww
}

/// Is an expiry still to come?
pub open spec fn lasts(expires_at: u64, now_ms: u64) -> bool {
    expires_at == 0 || expires_at > now_ms
}

// ---------- files ----------

/// What was stored is read back, as long as its expiry is still to come.
pub proof fn law_stored_file_is_read_back(f: FsV, s: StoreV, p: Seq<u8>, data: Seq<u8>, hint: Option<u64>, now_ms: u64, later_ms: u64)
    requires
        last_writer_wins(f, s),
        f.committed(s, p, data, hint, now_ms).result is Ok,
    ensures
        ({
            let t = f.committed(s, p, data, hint, now_ms);
            let e = match hint {
                None => f.expiry(s, p, now_ms),
                Some(h) => if h > now_ms {
                    h
                } else {
                    0
                },
            };
            &&& lasts(e, later_ms) ==> t.fs.contents(t.store, p, later_ms) == Some(data) && t.fs.expiry(
                t.store,
                p,
                later_ms,
            ) == e
            &&& !lasts(e, later_ms) ==> t.fs.contents(t.store, p, later_ms) is None
        }),
{
}

/// A file that is written again keeps its expiry.
pub proof fn law_rewrite_keeps_expiry(f: FsV, s: StoreV, p: Seq<u8>, data: Seq<u8>, now_ms: u64)
    requires
        last_writer_wins(f, s),
        f.committed(s, p, data, None, now_ms).result is Ok,
    ensures
        ({
            let t = f.committed(s, p, data, None, now_ms);
            t.fs.expiry(t.store, p, now_ms) == f.expiry(s, p, now_ms)
        }),
{
    lemma_seen_lasts(f, s, p, now_ms);
    law_stored_file_is_read_back(f, s, p, data, None, now_ms, now_ms);
}

proof fn lemma_seen_lasts(f: FsV, s: StoreV, p: Seq<u8>, now_ms: u64)
    ensures
        lasts(f.expiry(s, p, now_ms), now_ms),
{
}

/// A deleted file is gone, at any time.
pub proof fn law_deleted_file_is_gone(f: FsV, s: StoreV, p: Seq<u8>, now_ms: u64, later_ms: u64)
    requires
        f.removed(s, p, now_ms).result is Ok,
    ensures
        ({
            let t = f.removed(s, p, now_ms);
            !t.fs.is_file(t.store, p, later_ms)
        }),
{
}

/// A file past its expiry is not there: it cannot be looked up, where no directory has
/// its name, nor opened.
pub proof fn law_expired_file_is_not_there(f: FsV, s: StoreV, parent: u64, name: Seq<u8>, ino: u64, mode: OpenMode, now_ms: u64)
    requires
        last_writer_wins(f, s),
        f.inodes.path(parent) is Some,
        ({
            let p = path::child_path(f.inodes.path(parent)->0, name);
            &&& s.get(f.ns(), path::key_for(p)) matches Some(EntryV::Lww(v)) && !lasts(v.expires_at, now_ms)
            &&& !f.is_dir(s, p)
            &&& f.inodes.path(ino) == Some(p)
        }),
    ensures
        f.looked_up(s, parent, name, now_ms).result == Err::<mesh::Attr, Errno>(Errno::Enoent),
        f.opened(s, ino, mode, now_ms).result == Err::<u64, Errno>(Errno::Enoent),
{
}

proof fn lemma_keys_differ(a: Seq<u8>, b: Seq<u8>)
    requires
        a != b,
    ensures
        path::key_for(a) != path::key_for(b),
{
    let n = path::root_prefix().len() as int;
    assert(path::key_for(a).skip(n) =~= a);
    assert(path::key_for(b).skip(n) =~= b);
}

/// A renamed file has its contents and its expiry under the new path, and nothing is
/// left under the old one.
pub proof fn law_rename_moves_the_file(f: FsV, s: StoreV, from: Seq<u8>, to: Seq<u8>, now_ms: u64, later_ms: u64)
    requires
        last_writer_wins(f, s),
        from != to,
        f.is_file(s, from, now_ms),
        f.repathed(s, from, to, now_ms).result is Ok,
        lasts(f.expiry(s, from, now_ms), later_ms),
    ensures
        ({
            let t = f.repathed(s, from, to, now_ms);
            &&& t.fs.contents(t.store, to, later_ms) == f.contents(s, from, now_ms)
            &&& t.fs.expiry(t.store, to, later_ms) == f.expiry(s, from, now_ms)
            &&& !t.fs.is_file(t.store, from, later_ms)
        }),
{
    lemma_keys_differ(from, to);
    lemma_seen_lasts(f, s, from, now_ms);
    let data = f.contents(s, from, now_ms)->0;
    let e = f.expiry(s, from, now_ms);
    law_stored_file_is_read_back(f, s, to, data, Some(e), now_ms, later_ms);
    let put = f.committed(s, to, data, Some(e), now_ms);
    law_deleted_file_is_gone(put.fs, put.store, from, now_ms, later_ms);
    assert(put.fs.removed(put.store, from, now_ms).store.get(f.ns(), path::key_for(to)) == put.store.get(
        f.ns(),
        path::key_for(to),
    ));
}

// ---------- handles ----------

/// A read-only handle changes nothing, neither when it is opened nor when it is flushed.
pub proof fn law_read_only_handle_writes_nothing(f: FsV, s: StoreV, ino: u64, mode: OpenMode, fh: u64, now_ms: u64)
    requires
        !mode.write,
    ensures
        f.opened(s, ino, mode, now_ms).fs == f,
        f.opened(s, ino, mode, now_ms).store == s,
        !f.holds(fh) ==> f.flushed(s, ino, fh, now_ms).store == s && f.flushed(s, ino, fh, now_ms).fs == f,
{
}

/// A handle that was neither written to nor cut stores nothing when it is flushed: no
/// record, no event.
pub proof fn law_clean_handle_stores_nothing(f: FsV, s: StoreV, ino: u64, fh: u64, now_ms: u64)
    requires
        f.holds(fh),
        !f.handle(fh).dirty,
    ensures
        f.flushed(s, ino, fh, now_ms).store == s,
{
}

/// A released handle is dropped with what was not flushed.
pub proof fn law_released_handle_stores_nothing(f: FsV, s: StoreV, ino: u64, fh: u64, now_ms: u64)
    requires
        forall|i: int, j: int| 0 <= i < j < f.handles.len() ==> (#[trigger] f.handles[i]).fh != (#[trigger] f.handles[j]).fh,
    ensures
        f.without(fh).flushed(s, ino, fh, now_ms).store == s,
{
    let g = f.without(fh);
    mesh::lemma_handle(f.handles, fh, 0);
    mesh::lemma_handle(g.handles, fh, 0);
    if g.holds(fh) {
        let i = mesh::handle_at(f.handles, fh, 0);
        let j = mesh::handle_at(g.handles, fh, 0);
        assert(g.handles[j] == f.handles[if j < i {
            j
        } else {
            j + 1
        }]);
    }
}

/// A write changes the bytes that it names and no others; what it passes over is zero.
pub proof fn law_partial_write_keeps_the_rest(d: Seq<u8>, off: int, data: Seq<u8>, i: int)
    requires
        0 <= off,
    ensures
        ({
            let w = mesh::overwritten(d, off, data);
            let n = off + data.len();
            &&& w.len() == (if n > d.len() {
                n
            } else {
                d.len() as int
            })
            &&& off <= i < n ==> w[i] == data[i - off]
            &&& 0 <= i < d.len() && !(off <= i < n) ==> w[i] == d[i]
            &&& d.len() <= i < off ==> w[i] == 0
        }),
{
}

/// A file that is opened to be cut, written and flushed is read back.
pub proof fn law_written_file_is_read_back(f: FsV, s: StoreV, ino: u64, data: Seq<u8>, append: bool, now_ms: u64, later_ms: u64)
    requires
        last_writer_wins(f, s),
        f.inodes.path(ino) is Some,
        f.is_file(s, f.inodes.path(ino)->0, now_ms),
        !f.holds(f.next_fh),
        data.len() <= usize::MAX,
    ensures
        ({
            let p = f.inodes.path(ino)->0;
            let opened = f.opened(s, ino, OpenMode { write: true, trunc: true, append }, now_ms);
            let fh = f.next_fh;
            &&& opened.result == Ok::<u64, Errno>(fh)
            &&& opened.fs.written(ino, fh, 0, data) matches Ok(w) && ({
                let t = w.flushed(s, ino, fh, now_ms);
                t.result is Ok && lasts(f.expiry(s, p, now_ms), later_ms) ==> t.fs.contents(t.store, p, later_ms)
                    == Some(data)
            })
        }),
{
    let p = f.inodes.path(ino)->0;
    let fh = f.next_fh;
    let g = f.opened(s, ino, OpenMode { write: true, trunc: true, append }, now_ms).fs;
    mesh::lemma_handle(f.handles, fh, 0);
    mesh::lemma_handle(g.handles, fh, 0);
    let h = HandleV { fh, ino, data: Seq::empty(), dirty: true, append };
    assert(g.handles == f.handles.push(h));
    let k = mesh::handle_at(g.handles, fh, 0);
    if k < f.handles.len() {
        assert(g.handles[k] == f.handles[k]);
    }
    assert(g.handles[f.handles.len() as int] == h);
    assert(k == f.handles.len());
    assert(mesh::overwritten(Seq::empty(), 0, data) =~= data);
    let w = g.with_buffer(fh, data, true);
    mesh::lemma_handle(w.handles, fh, 0);
    let m = mesh::handle_at(w.handles, fh, 0);
    if m < k {
        assert(w.handles[m] == f.handles[m]);
    }
    assert(w.handles[k].fh == fh);
    assert(m == k);
    let u = w.without(fh);
    if u.committed(s, p, data, None, now_ms).result is Ok {
        law_stored_file_is_read_back(u, s, p, data, None, now_ms, later_ms);
    }
}

// ---------- who may write ----------

/// Without the host's namespace nothing can be written: every change is refused, and
/// the store stays as it was.
pub proof fn law_no_namespace_no_writes(
    f: FsV,
    s: StoreV,
    p: Seq<u8>,
    data: Seq<u8>,
    hint: Option<u64>,
    parent: u64,
    name: Seq<u8>,
    now_ms: u64,
)
    requires
        !s.has(f.ns()),
        f.inodes.path(parent) is Some,
    ensures
        f.committed(s, p, data, hint, now_ms) == f.fails::<()>(s, Errno::Eacces),
        f.removed(s, p, now_ms) == f.fails::<()>(s, Errno::Eacces),
        f.created(s, parent, name, now_ms) == f.fails::<(mesh::Attr, u64)>(s, Errno::Eacces),
        f.made_dir(s, parent, name, now_ms) == f.fails::<mesh::Attr>(s, Errno::Eacces),
        f.unlinked(s, parent, name, now_ms) == f.fails::<()>(s, Errno::Eacces),
        f.removed_dir(s, parent, name, now_ms) == f.fails::<()>(s, Errno::Eacces),
{
}

/// What is shown belongs to the user that mounted the tree.
pub proof fn law_owner_is_the_mounting_user(f: FsV, s: StoreV, p: Seq<u8>, is_dir: bool, now_ms: u64)
    ensures
        f.attr(s, p, is_dir, now_ms).uid == f.owner_uid,
        f.attr(s, p, is_dir, now_ms).gid == f.owner_uid,
{
}

// ---------- directories ----------

proof fn lemma_keys_under(c: entry::CellsV, ks: Seq<Seq<u8>>, prefix: Seq<u8>, k: Seq<u8>)
    ensures
        store::keys_under(c, ks, prefix).contains(k) <==> ks.contains(k) && store::has_prefix(k, prefix)
            && c.get(k) is Some,
    decreases ks.len(),
{
    let all = store::keys_under(c, ks, prefix);
    if ks.len() > 0 {
        let before = store::keys_under(c, ks.drop_last(), prefix);
        lemma_keys_under(c, ks.drop_last(), prefix, k);
        if ks.contains(k) {
            let i = ks.index_of(k);
            if i < ks.len() - 1 {
                assert(ks.drop_last()[i] == k);
            }
        }
        if ks.drop_last().contains(k) {
            assert(ks[ks.drop_last().index_of(k)] == k);
        }
        if store::has_prefix(ks.last(), prefix) && c.get(ks.last()) is Some {
            assert(all == before.push(ks.last()));
            if all.contains(k) {
                let i = all.index_of(k);
                if i < before.len() {
                    assert(before[i] == k);
                    assert(before.contains(k));
                }
            }
            if before.contains(k) {
                assert(all[before.index_of(k)] == k);
            }
            if k == ks.last() {
                assert(all[all.len() - 1] == k);
            }
        }
    }
}

/// The keys below a directory are those of the store that start with its prefix and
/// that a read sees.
pub proof fn lemma_below(f: FsV, s: StoreV, p: Seq<u8>, k: Seq<u8>)
    requires
        s.has(f.ns()),
        s.space(f.ns()).cells.index.dom().finite(),
    ensures
        f.below(s, p).contains(k) <==> s.get(f.ns(), k) is Some && store::has_prefix(k, path::prefix_for(p)),
{
    let d = s.space(f.ns()).cells.index.dom();
    ordmap::lemma_has_list(d);
    lemma_keys_under(s.space(f.ns()).cells, ordmap::listed(d), path::prefix_for(p), k);
}

proof fn lemma_kids(keys: Seq<Seq<u8>>, n: int, k: Seq<u8>)
    requires
        keys.contains(k),
        path::child_of(k.skip(n)) is Some,
    ensures
        ({
            path::child_of(k.skip(n)) matches Some(c) && mesh::kids(keys, n).dom().contains(c.0)
        }),
    decreases keys.len(),
{
    let i = keys.index_of(k);
    if i < keys.len() - 1 {
        assert(keys.drop_last()[i] == k);
        lemma_kids(keys.drop_last(), n, k);
    }
}

proof fn lemma_kids_finite(keys: Seq<Seq<u8>>, n: int)
    ensures
        mesh::kids(keys, n).dom().finite(),
    decreases keys.len(),
{
    if keys.len() > 0 {
        lemma_kids_finite(keys.drop_last(), n);
    }
}

/// Does a row have the name?
pub open spec fn names_row(rows: Seq<RowV>, name: Seq<u8>) -> bool {
    exists|i: int| 0 <= i < rows.len() && (#[trigger] rows[i]).name == name
}

/// Every key below a directory whose first name is clean is in sight: a row of the
/// directory has that name.
pub proof fn law_stored_name_is_listed(f: FsV, s: StoreV, p: Seq<u8>, rel: Seq<u8>)
    requires
        s.has(f.ns()),
        s.space(f.ns()).cells.index.dom().finite(),
        s.get(f.ns(), path::prefix_for(p) + rel) is Some,
        path::child_of(rel) is Some,
    ensures
        path::child_of(rel) matches Some(c) && names_row(f.rows(s, p), c.0),
{
    let pre = path::prefix_for(p);
    let k = pre + rel;
    let n = pre.len() as int;
    assert(k.take(n) =~= pre);
    assert(k.skip(n) =~= rel);
    lemma_below(f, s, p, k);
    let keys = f.below(s, p);
    lemma_kids(keys, n, k);
    lemma_kids_finite(keys, n);
    let m = mesh::kids(keys, n);
    let ks = ordmap::listed(m.dom());
    ordmap::lemma_has_list(m.dom());
    let c = path::child_of(rel)->0;
    assert(m.dom().contains(c.0));
    let j = ks.index_of(c.0);
    assert(f.rows(s, p)[j + 2].name == c.0);
}

proof fn lemma_cleared(f: FsV, s: StoreV, keys: Seq<Seq<u8>>, k: Seq<u8>)
    requires
        s.has(f.ns()),
        f.cleared(s, keys).result is Ok,
    ensures
        ({
            let t = f.cleared(s, keys).store;
            &&& t.has(f.ns())
            &&& t.get(f.ns(), k) is Some <==> s.get(f.ns(), k) is Some && !keys.contains(k)
            &&& s.space(f.ns()).cells.index.dom().finite() ==> t.space(f.ns()).cells.index.dom().finite()
        }),
    decreases keys.len(),
{
    if keys.len() > 0 {
        let del = s.delete(f.ns(), model::del_op(keys[0], f.clock, f.root, f.root));
        lemma_cleared(f, del.store, keys.drop_first(), k);
        if keys.contains(k) {
            let i = keys.index_of(k);
            if i > 0 {
                assert(keys.drop_first()[i - 1] == k);
            }
        }
        if keys.drop_first().contains(k) {
            assert(keys[keys.drop_first().index_of(k) + 1] == k);
        }
        assert(keys.contains(keys[0]));
    }
}

/// A directory that was emptied is gone: no key is left below it.
pub proof fn law_emptied_directory_is_gone(f: FsV, s: StoreV, p: Seq<u8>, now_ms: u64)
    requires
        f.emptied(s, p, now_ms).result is Ok,
        s.space(f.ns()).cells.index.dom().finite(),
    ensures
        ({
            let t = f.emptied(s, p, now_ms);
            !t.fs.is_dir(t.store, p)
        }),
{
    let g = f.ticked(now_ms);
    let keys = f.below(s, p);
    let t = g.cleared(s, keys);
    lemma_same_tree(g, s, keys);
    lemma_cleared(g, s, keys, Seq::empty());
    let left = t.fs.below(t.store, p);
    if left.len() > 0 {
        let k = left[0];
        assert(left.contains(k));
        lemma_below(t.fs, t.store, p, k);
        lemma_cleared(g, s, keys, k);
        lemma_below(f, s, p, k);
    }
}

proof fn lemma_same_tree(f: FsV, s: StoreV, keys: Seq<Seq<u8>>)
    ensures
        f.cleared(s, keys).fs == f,
    decreases keys.len(),
{
    if keys.len() > 0 {
        let del = s.delete(f.ns(), model::del_op(keys[0], f.clock, f.root, f.root));
        lemma_same_tree(f, del.store, keys.drop_first());
    }
}

/// The number of an open handle's file leads to its path whatever else is asked for.
pub proof fn law_open_file_keeps_its_number(f: FsV, p: Seq<u8>, i: int, row: (u64, Seq<u8>))
    requires
        0 <= i < f.handles.len(),
        row.0 == f.handles[i].ino,
        f.inodes.list.contains(row),
        row.0 != f.inodes.next,
    ensures
        f.numbered(p).inodes.list.contains(row),
{
    let l = f.inodes.list;
    let keep = mesh::held(f.handles);
    assert(keep[i] == row.0);
    assert(keep.contains(row.0));
    let b = inodes::bounded(l, keep);
    if l.len() + 1 >= inodes::INO_CAP {
        inodes::law_kept_rows_stay(l, keep, l.len() + 1 - inodes::INO_EVICT_TO, row);
    }
    assert(b.contains(row));
    let j = b.index_of(row);
    inodes::lemma_at(b, f.inodes.next, p, 0);
    let w = inodes::with_ino(b, f.inodes.next, p);
    assert(w[j] == row);
}

} // verus!
