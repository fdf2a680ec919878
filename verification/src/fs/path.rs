//! Paths, keys and names.

use vstd::prelude::*;
use vstd::slice::slice_subrange;
use vstd::slice::slice_to_vec;

verus! {

/// `/`
pub const SLASH: u8 = 47;

/// `.`
pub const DOT: u8 = 46;

/// What the keys of files start with.
pub open spec fn root_prefix() -> Seq<u8> {
    seq![102u8, 115u8, 47u8]
}

/// The key of a path; the root's path is empty.
pub open spec fn key_for(path: Seq<u8>) -> Seq<u8> {
    root_prefix() + path
}

/// What the keys below a directory start with.
pub open spec fn prefix_for(path: Seq<u8>) -> Seq<u8> {
    let k = key_for(path);
    if k.last() == SLASH {
        k
    } else {
        k.push(SLASH)
    }
}

/// The path of a name in a directory.
pub open spec fn child_path(parent: Seq<u8>, name: Seq<u8>) -> Seq<u8> {
    if parent.len() == 0 {
        name
    } else {
        parent.push(SLASH) + name
    }
}

/// The place of the first slash from `i` on; the length where there is none.
pub open spec fn slash_at(s: Seq<u8>, i: int) -> int
    decreases s.len() - i,
{
    if i < 0 || i >= s.len() {
        s.len() as int
    } else if s[i] == SLASH {
        i
    } else {
        slash_at(s, i + 1)
    }
}

/// May a name stand in a directory's list? Keys are written by arbitrary clients, and
/// need not be clean paths.
pub open spec fn clean(name: Seq<u8>) -> bool {
    &&& name.len() > 0
    &&& name != seq![DOT]
    &&& name != seq![DOT, DOT]
}

/// The first name in the rest of a key behind its directory, and whether there is more
/// below it; none where the name is not clean or a NUL stands in the rest.
pub open spec fn child_of(rel: Seq<u8>) -> Option<(Seq<u8>, bool)> {
    let n = slash_at(rel, 0);
    if rel.contains(0u8) || !clean(rel.take(n)) {
        None
    } else {
        Some((rel.take(n), n < rel.len()))
    }
}

proof fn lemma_slash(s: Seq<u8>, i: int)
    requires
        0 <= i <= s.len(),
    ensures
        i <= slash_at(s, i) <= s.len(),
        slash_at(s, i) < s.len() ==> s[slash_at(s, i)] == SLASH,
        forall|j: int| i <= j < slash_at(s, i) ==> s[j] != SLASH,
    decreases s.len() - i,
{
    if i < s.len() && s[i] != SLASH {
        lemma_slash(s, i + 1);
    }
}

pub fn key_of(path: &[u8]) -> (k: Vec<u8>)
    ensures
        k@ == key_for(path@),
{
    let mut k: Vec<u8> = vec![102u8, 115u8, 47u8];
    let mut p = slice_to_vec(path);
    k.append(&mut p);
    assert(k@ =~= key_for(path@));
    k
}

pub fn dir_prefix(path: &[u8]) -> (k: Vec<u8>)
    ensures
        k@ == prefix_for(path@),
{
    let mut k = key_of(path);
    if k[k.len() - 1] != SLASH {
        k.push(SLASH);
    }
    k
}

pub fn join_child(parent: &[u8], name: &[u8]) -> (p: Vec<u8>)
    ensures
        p@ == child_path(parent@, name@),
{
    if parent.len() == 0 {
        slice_to_vec(name)
    } else {
        let mut p = slice_to_vec(parent);
        p.push(SLASH);
        let mut n = slice_to_vec(name);
        p.append(&mut n);
        assert(p@ =~= child_path(parent@, name@));
        p
    }
}

pub fn child_name(rel: &[u8]) -> (r: Option<(Vec<u8>, bool)>)
    ensures
        match child_of(rel@) {
            Some(c) => r matches Some(x) && x.0@ == c.0 && x.1 == c.1,
            None => r is None,
        },
{
    let mut n: usize = rel.len();
    let mut i: usize = 0;
    proof {
        lemma_slash(rel@, 0);
    }
    while i < rel.len()
        invariant
            i <= rel@.len(),
            n == (if slash_at(rel@, 0) < i {
                slash_at(rel@, 0)
            } else {
                rel@.len() as int
            }),
            slash_at(rel@, 0) >= i ==> slash_at(rel@, 0) == slash_at(rel@, i as int),
            0 <= slash_at(rel@, 0) <= rel@.len(),
            forall|j: int| 0 <= j < i ==> rel@[j] != 0u8,
        decreases rel@.len() - i,
    {
        if rel[i] == 0 {
            assert(rel@.contains(0u8));
            return None;
        }
        if rel[i] == SLASH && n == rel.len() {
            n = i;
        }
        proof {
            lemma_slash(rel@, i as int);
        }
        i += 1;
    }
    assert(!rel@.contains(0u8));
    let seg = slice_subrange(rel, 0, n);
    assert(seg@ =~= rel@.take(n as int));
    if n == 0 {
        return None;
    }
    if n == 1 && seg[0] == DOT {
        assert(seg@ =~= seq![DOT]);
        return None;
    }
    if n == 2 && seg[0] == DOT && seg[1] == DOT {
        assert(seg@ =~= seq![DOT, DOT]);
        return None;
    }
    proof {
        if seg@ == seq![DOT] {
            assert(seg@.len() == 1);
        }
        if seg@ == seq![DOT, DOT] {
            assert(seg@.len() == 2);
        }
    }
    Some((slice_to_vec(seg), n < rel.len()))
}

// ---------- laws ----------

/// A name that is listed can be walked: it is not empty, neither `.` nor `..`, and
/// holds no slash and no NUL, whatever the stored key holds.
pub proof fn law_listed_names_are_clean(rel: Seq<u8>)
    requires
        child_of(rel) is Some,
    ensures
        (child_of(rel) matches Some((name, _)) && clean(name) && !name.contains(SLASH) && !name.contains(
            0u8,
        )),
{
    lemma_slash(rel, 0);
    let name = rel.take(slash_at(rel, 0));
    assert forall|j: int| 0 <= j < name.len() implies name[j] != SLASH && name[j] != 0u8 by {
        assert(name[j] == rel[j]);
    }
}

/// The key of a file stands below its directory, and its name is read back from it.
pub proof fn law_file_stands_below_its_directory(parent: Seq<u8>, name: Seq<u8>)
    requires
        parent.len() > 0 ==> parent.last() != SLASH,
        clean(name),
        !name.contains(SLASH),
        !name.contains(0u8),
    ensures
        key_for(child_path(parent, name)) == prefix_for(parent) + name,
        child_of(name) == Some((name, false)),
{
    assert(key_for(child_path(parent, name)) =~= prefix_for(parent) + name);
    lemma_slash(name, 0);
    let n = slash_at(name, 0);
    if n < name.len() {
        assert(name.contains(name[n]));
    }
    assert(name.take(n) =~= name);
}

} // verus!
