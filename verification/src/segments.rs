//! Cutting texts at a character and putting the parts together again.

use crate::json;
use crate::text;
use vstd::prelude::*;
use vstd::slice::slice_subrange;

verus! {

/// Where the character first stands, or the length.
pub open spec fn find(s: Seq<char>, c: char) -> int
    decreases s.len(),
{
    if s.len() == 0 || s[0] == c {
        0
    } else {
        1 + find(s.drop_first(), c)
    }
}

/// The parts between the occurrences of a character.
pub open spec fn split(s: Seq<char>, c: char) -> Seq<Seq<char>>
    decreases s.len(),
{
    let i = find(s, c);
    if i >= s.len() {
        seq![s]
    } else {
        proof {
            lemma_find(s, c);
        }
        seq![s.take(i)] + split(s.skip(i + 1), c)
    }
}

/// The parts with a character between them.
pub open spec fn joined(parts: Seq<Seq<char>>, c: char) -> Seq<char>
    decreases parts.len(),
{
    if parts.len() == 0 {
        Seq::empty()
    } else if parts.len() == 1 {
        parts[0]
    } else {
        parts[0] + seq![c] + joined(parts.drop_first(), c)
    }
}

/// Does the text start with the other one?
pub open spec fn starts(s: Seq<char>, p: Seq<char>) -> bool {
    p.len() <= s.len() && s.take(p.len() as int) == p
}

pub proof fn lemma_find(s: Seq<char>, c: char)
    ensures
        0 <= find(s, c) <= s.len(),
        find(s, c) < s.len() ==> s[find(s, c)] == c,
        forall|j: int| 0 <= j < find(s, c) ==> #[trigger] s[j] != c,
    decreases s.len(),
{
    if s.len() > 0 && s[0] != c {
        let t = s.drop_first();
        lemma_find(t, c);
        assert forall|j: int| 0 <= j < find(s, c) implies #[trigger] s[j] != c by {
            if j > 0 {
                assert(s[j] == t[j - 1]);
            }
        }
    }
}

/// The place is the first one, if the character stands there and nowhere before.
pub proof fn lemma_find_is(s: Seq<char>, c: char, i: int)
    requires
        0 <= i <= s.len(),
        forall|j: int| 0 <= j < i ==> #[trigger] s[j] != c,
        i < s.len() ==> s[i] == c,
    ensures
        find(s, c) == i,
{
    lemma_find(s, c);
    let f = find(s, c);
    if f < i {
        assert(s[f] != c);
    }
    if f > i {
        assert(s[i] != c);
    }
}

/// The parts, put together again, are the text.
pub proof fn law_split_joins(s: Seq<char>, c: char)
    ensures
        joined(split(s, c), c) == s,
        split(s, c).len() > 0,
    decreases s.len(),
{
    lemma_find(s, c);
    let i = find(s, c);
    if i < s.len() {
        let rest = s.skip(i + 1);
        law_split_joins(rest, c);
        let parts = split(s, c);
        assert(parts.drop_first() =~= split(rest, c));
        assert(parts[0] == s.take(i));
        assert(joined(parts, c) =~= s);
    }
}

/// A first part without the character comes off by itself.
pub proof fn lemma_split_front(a: Seq<char>, b: Seq<char>, c: char)
    requires
        !a.contains(c),
    ensures
        split(a + seq![c] + b, c) == seq![a] + split(b, c),
{
    let s = a + seq![c] + b;
    assert forall|j: int| 0 <= j < a.len() implies #[trigger] s[j] != c by {
        assert(s[j] == a[j]);
        assert(a.contains(a[j]));
    }
    lemma_find_is(s, c, a.len() as int);
    assert(s.take(a.len() as int) =~= a);
    assert(s.skip(a.len() + 1int) =~= b);
}

/// A text without the character is one part.
pub proof fn lemma_split_whole(a: Seq<char>, c: char)
    requires
        !a.contains(c),
    ensures
        split(a, c) == seq![a],
{
    assert forall|j: int| 0 <= j < a.len() implies #[trigger] a[j] != c by {
        assert(a.contains(a[j]));
    }
    lemma_find_is(a, c, a.len() as int);
}

/// The parts of a text between the occurrences of a character.
pub fn split_text(s: &str, c: char) -> (r: Vec<String>)
    ensures
        json::texts(r@) == split(s@, c),
        r@.len() > 0,
{
    let chars = text::chars_of(s);
    let n: usize = chars.len();
    let mut out: Vec<String> = Vec::new();
    let mut start: usize = 0;
    let mut i: usize = 0;
    proof {
        assert(s@.skip(0) =~= s@);
        assert(json::texts(out@) + split(s@, c) =~= split(s@, c));
    }
    while i < n
        invariant
            start <= i <= n,
            n == s@.len(),
            chars@ == s@,
            forall|j: int| start <= j < i ==> #[trigger] s@[j] != c,
            split(s@, c) == json::texts(out@) + split(s@.skip(start as int), c),
        decreases n - i,
    {
        if chars[i] == c {
            let ghost rest = s@.skip(start as int);
            let ghost had = json::texts(out@);
            let part = text::string_of(slice_subrange(chars.as_slice(), start, i));
            proof {
                assert forall|j: int| 0 <= j < i - start implies #[trigger] rest[j] != c by {
                    assert(rest[j] == s@[start + j]);
                }
                lemma_find_is(rest, c, i - start);
                assert(part@ =~= rest.take(i - start));
                assert(rest.skip(i - start + 1) =~= s@.skip(i + 1));
            }
            out.push(part);
            proof {
                assert(json::texts(out@) =~= had.push(part@));
                assert(json::texts(out@) + split(s@.skip(i + 1), c) =~= had + split(rest, c));
            }
            start = i + 1;
        }
        i += 1;
    }
    let ghost rest = s@.skip(start as int);
    let ghost had = json::texts(out@);
    let part = text::string_of(slice_subrange(chars.as_slice(), start, n));
    proof {
        assert forall|j: int| 0 <= j < n - start implies #[trigger] rest[j] != c by {
            assert(rest[j] == s@[start + j]);
        }
        lemma_find_is(rest, c, n - start);
        assert(part@ =~= rest);
    }
    out.push(part);
    assert(json::texts(out@) =~= had + split(rest, c));
    out
}

/// The parts from place `from` on, with a character between them.
pub fn join_text(parts: &Vec<String>, from: usize, c: char) -> (r: String)
    requires
        from < parts@.len(),
    ensures
        r@ == joined(json::texts(parts@).skip(from as int), c),
{
    let ghost all = json::texts(parts@);
    let n: usize = parts.len();
    let mut out = parts[n - 1].clone();
    let mut i: usize = n - 1;
    assert(all.skip(n - 1) =~= seq![all[n - 1]]);
    while i > from
        invariant
            from <= i < n,
            n == parts@.len(),
            all == json::texts(parts@),
            out@ == joined(all.skip(i as int), c),
        decreases i,
    {
        i -= 1;
        let mut next = parts[i].clone();
        next.push(c);
        next.push_str(out.as_str());
        proof {
            let t = all.skip(i as int);
            assert(t.drop_first() =~= all.skip(i + 1));
            assert(next@ =~= t[0] + seq![c] + joined(t.drop_first(), c));
        }
        out = next;
    }
    out
}

/// The text behind a prefix, if it starts with it.
pub fn strip_prefix(s: &str, p: &str) -> (r: Option<String>)
    ensures
        match r {
            Some(t) => starts(s@, p@) && t@ == s@.skip(p@.len() as int),
            None => !starts(s@, p@),
        },
{
    let a = text::chars_of(s);
    let b = text::chars_of(p);
    if b.len() > a.len() {
        return None;
    }
    let mut i: usize = 0;
    while i < b.len()
        invariant
            i <= b@.len() <= a@.len(),
            a@ == s@,
            b@ == p@,
            forall|j: int| 0 <= j < i ==> a@[j] == b@[j],
        decreases b@.len() - i,
    {
        if a[i] != b[i] {
            assert(s@.take(p@.len() as int)[i as int] == a@[i as int]);
            return None;
        }
        i += 1;
    }
    assert(s@.take(p@.len() as int) =~= p@);
    let t = text::string_of(slice_subrange(a.as_slice(), b.len(), a.len()));
    assert(t@ =~= s@.skip(p@.len() as int));
    Some(t)
}

} // verus!
