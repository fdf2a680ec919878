//! Namespace names and the directories they are kept in.

use crate::hexes;
use crate::text;
use vstd::prelude::*;

verus! {

/// A character of a flat name.
pub open spec fn flat_char(c: char) -> bool {
    ('a' <= c && c <= 'z') || ('0' <= c && c <= '9') || c == '.' || c == '_' || c == '-'
}

/// `[a-z0-9._-]{1,64}`.
pub open spec fn flat_name(s: Seq<char>) -> bool {
    1 <= s.len() <= 64 && forall|i: int| 0 <= i < s.len() ==> flat_char(#[trigger] s[i])
}

/// `u/` and 64 hexadecimal digits: the namespace of one key's owner.
pub open spec fn owner_name(s: Seq<char>) -> bool {
    s.len() == 66 && s[0] == 'u' && s[1] == '/' && hexes::all_hex(s.skip(2))
}

/// A name that a namespace may have.
pub open spec fn is_ns(s: Seq<char>) -> bool {
    flat_name(s) || owner_name(s)
}

/// May a namespace have this name?
pub fn valid_ns(name: &str) -> (r: bool)
    ensures
        r == is_ns(name@),
{
    let c = text::chars_of(name);
    valid_chars(&c)
}

fn valid_chars(c: &Vec<char>) -> (r: bool)
    ensures
        r == is_ns(c@),
{
    let n: usize = c.len();
    let mut flat: bool = 1 <= n && n <= 64;
    let mut i: usize = 0;
    while i < n && flat
        invariant
            i <= n,
            n == c@.len(),
            flat ==> 1 <= n <= 64 && forall|j: int| 0 <= j < i ==> flat_char(#[trigger] c@[j]),
            !flat ==> !flat_name(c@),
        decreases n - i + (if flat { 1int } else { 0 }),
    {
        let x: char = c[i];
        if !(('a' <= x && x <= 'z') || ('0' <= x && x <= '9') || x == '.' || x == '_' || x == '-') {
            assert(!flat_char(c@[i as int]));
            flat = false;
        } else {
            i += 1;
        }
    }
    if flat {
        return true;
    }
    if n != 66 || c[0] != 'u' || c[1] != '/' {
        return false;
    }
    let mut j: usize = 2;
    while j < n
        invariant
            2 <= j <= n,
            n == 66,
            n == c@.len(),
            forall|k: int| 0 <= k < j - 2 ==> hexes::is_hex_char(#[trigger] c@.skip(2)[k]),
        decreases n - j,
    {
        assert(c@.skip(2)[j - 2] == c@[j as int]);
        match hexes::hex_digit(c[j]) {
            Some(_) => {},
            None => {
                return false;
            },
        }
        j += 1;
    }
    true
}

/// The directory name of a namespace: the length of its hexadecimal name, itself in
/// hexadecimal, and that name.
pub open spec fn dir_of(ns: Seq<char>) -> Seq<char> {
    text::numeral(2 * text::utf8(ns).len(), 16) + "_"@ + hexes::hex_text(text::utf8(ns))
}

/// The directory name of a namespace under the store root.
pub fn ns_dir(ns: &str) -> (r: String)
    requires
        is_ns(ns@),
    ensures
        r@ == dir_of(ns@),
{
    proof {
        lemma_ns_ascii(ns@);
    }
    let bytes = text::bytes_of(ns);
    let hexlen: u64 = 2 * bytes.len() as u64;
    let hex = hexes::hex_encode(bytes.as_slice());
    text::join3(text::hex_numeral(hexlen).as_str(), "_", hex.as_str())
}

/// Names are ASCII.
pub proof fn lemma_ns_ascii(s: Seq<char>)
    requires
        is_ns(s),
    ensures
        vstd::utf8::is_ascii_chars(s),
        text::utf8(s).len() == s.len(),
        0 < s.len() <= 66,
{
    assert forall|i: int| 0 <= i < s.len() implies '\0' <= #[trigger] s[i] <= '\u{7f}' by {
        if !flat_name(s) {
            if i >= 2 {
                assert(s.skip(2)[i - 2] == s[i]);
                assert(hexes::is_hex_char(s.skip(2)[i - 2]));
            }
        } else {
            assert(flat_char(s[i]));
        }
    }
    text::lemma_utf8_ascii(s);
}

/// Where the first underscore stands, or the length.
pub open spec fn cut_at(s: Seq<char>) -> int
    decreases s.len(),
{
    if s.len() == 0 || s[0] == '_' {
        0
    } else {
        1 + cut_at(s.drop_first())
    }
}

/// The namespace that a directory name stands for.
pub open spec fn ns_of_dir(name: Seq<char>) -> Option<Seq<char>> {
    let i = cut_at(name);
    let len = name.take(i);
    let rest = name.skip(i + 1);
    let bytes = hexes::hex_bytes(rest);
    if i < name.len() && i > 0 && hexes::all_hex(len) && hexes::all_hex(rest) && hexes::hex_number(len)
        == rest.len() && rest.len() % 2 == 0 && vstd::utf8::valid_utf8(bytes) && is_ns(
        vstd::utf8::decode_utf8(bytes),
    ) {
        Some(vstd::utf8::decode_utf8(bytes))
    } else {
        None
    }
}

proof fn lemma_cut(s: Seq<char>, i: int)
    requires
        0 <= i <= s.len(),
        forall|j: int| 0 <= j < i ==> #[trigger] s[j] != '_',
        i < s.len() ==> s[i] == '_',
    ensures
        cut_at(s) == i,
    decreases s.len(),
{
    if i > 0 {
        let t = s.drop_first();
        assert forall|j: int| 0 <= j < i - 1 implies #[trigger] t[j] != '_' by {
            assert(t[j] == s[j + 1]);
        }
        assert(s[0] != '_');
        lemma_cut(t, i - 1);
    }
}

/// The namespace that a directory name stands for, if it stands for one.
pub fn parse_ns_dir(name: &str) -> (r: Option<String>)
    ensures
        match r {
            Some(ns) => ns_of_dir(name@) == Some(ns@),
            None => ns_of_dir(name@) is None,
        },
{
    let c = text::chars_of(name);
    let n: usize = c.len();
    let mut i: usize = 0;
    while i < n && c[i] != '_'
        invariant
            i <= n,
            n == c@.len(),
            forall|j: int| 0 <= j < i ==> #[trigger] c@[j] != '_',
        decreases n - i,
    {
        i += 1;
    }
    proof {
        lemma_cut(c@, i as int);
    }
    if i == n || i == 0 {
        return None;
    }
    let want: u64 = (n - i - 1) as u64;
    let ghost len = c@.take(i as int);
    let mut acc: u64 = 0;
    let mut j: usize = 0;
    while j < i
        invariant
            j <= i,
            i < n,
            n == c@.len(),
            c@ == name@,
            cut_at(name@) == i,
            0 < i,
            len == c@.take(i as int),
            want == n - i - 1,
            forall|k: int| 0 <= k < j ==> hexes::is_hex_char(#[trigger] len[k]),
            acc == hexes::hex_number(len.take(j as int)),
            acc <= want,
        decreases i - j,
    {
        assert(len[j as int] == c@[j as int]);
        match hexes::hex_digit(c[j]) {
            None => {
                return None;
            },
            Some(d) => {
                let next: u128 = 16 * acc as u128 + d as u128;
                proof {
                    assert(len.take(j + 1).drop_last() =~= len.take(j as int));
                    assert(len.take(j + 1).last() == len[j as int]);
                }
                if next > want as u128 {
                    proof {
                        if hexes::all_hex(len) {
                            hexes::lemma_hex_prefix(len, j + 1);
                        }
                    }
                    return None;
                }
                acc = next as u64;
            },
        }
        j += 1;
    }
    assert(len.take(i as int) =~= len);
    if acc != want {
        return None;
    }
    let tail = text::string_of(vstd::slice::slice_subrange(c.as_slice(), i + 1, n));
    assert(tail@ =~= name@.skip(i + 1));
    match hexes::hex_decode(tail.as_str()) {
        Err(_) => None,
        Ok(bytes) => match text::utf8_string(bytes.as_slice()) {
            None => None,
            Some(ns) => if valid_ns(ns.as_str()) {
                Some(ns)
            } else {
                None
            },
        },
    }
}

/// A namespace's directory stands for that namespace.
pub proof fn law_dir_round_trip(ns: Seq<char>)
    requires
        is_ns(ns),
    ensures
        ns_of_dir(dir_of(ns)) == Some(ns),
{
    let bytes = text::utf8(ns);
    let len = text::numeral(2 * bytes.len(), 16);
    let hex = hexes::hex_text(bytes);
    let name = dir_of(ns);
    reveal_strlit("_");
    hexes::lemma_hex_numeral(2 * bytes.len());
    hexes::law_hex_round_trip(bytes);
    text::lemma_utf8_decodes(ns);
    lemma_cut(name, len.len() as int);
    assert(name.take(len.len() as int) =~= len);
    assert(name.skip(len.len() as int + 1) =~= hex);
}

/// Two namespaces have two directories.
pub proof fn law_dirs_differ(a: Seq<char>, b: Seq<char>)
    requires
        is_ns(a),
        is_ns(b),
        a != b,
    ensures
        dir_of(a) != dir_of(b),
{
    law_dir_round_trip(a);
    law_dir_round_trip(b);
}

/// May the character stand in a shared namespace's name?
pub open spec fn plain_char(c: char) -> bool {
    ('a' <= c <= 'z') || ('0' <= c <= '9') || c == '.' || c == '_' || c == '-'
}

/// Which names a namespace may have: one to 64 lower-case letters, digits, dots,
/// underscores and hyphens, or `u/` and the 64 hexadecimal digits of an owner's key.
pub proof fn law_names_of_namespaces(s: Seq<char>, key: Seq<u8>, i: int)
    ensures
        1 <= s.len() <= 64 && (forall|j: int| 0 <= j < s.len() ==> plain_char(#[trigger] s[j])) ==> is_ns(s),
        s.len() == 0 || s.len() > 66 ==> !is_ns(s),
        0 <= i < s.len() && !plain_char(s[i]) && !(s.len() == 66 && s[0] == 'u' && s[1] == '/') ==> !is_ns(s),
        s.len() == 65 ==> !is_ns(s),
        key.len() == 32 ==> is_ns(seq!['u', '/'] + hexes::hex_text(key)),
{
    hexes::law_hex_round_trip(key);
    let n = seq!['u', '/'] + hexes::hex_text(key);
    assert(n.skip(2) =~= hexes::hex_text(key));
    if 1 <= s.len() <= 64 && (forall|j: int| 0 <= j < s.len() ==> plain_char(#[trigger] s[j])) {
        assert forall|j: int| 0 <= j < s.len() implies flat_char(#[trigger] s[j]) by {
            assert(plain_char(s[j]));
        }
    }
    if 0 <= i < s.len() && !plain_char(s[i]) {
        assert(!flat_char(s[i]));
    }
}

} // verus!
