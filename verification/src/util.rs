//! Base64 in the standard and the URL-safe alphabet. Encodings carry no padding;
//! reading the standard alphabet accepts it.

use crate::text;
use vstd::prelude::*;

verus! {

/// The character of a value below 64.
pub open spec fn alpha_char(url: bool, v: int) -> char {
    if v < 26 {
        (65 + v) as char
    } else if v < 52 {
        (71 + v) as char
    } else if v < 62 {
        (v - 4) as char
    } else if v == 62 {
        if url {
            '-'
        } else {
            '+'
        }
    } else {
        if url {
            '_'
        } else {
            '/'
        }
    }
}

/// The value of a byte's character; -1 where it is none of the alphabet.
pub open spec fn alpha_value(url: bool, b: u8) -> int {
    if 65 <= b <= 90 {
        b - 65
    } else if 97 <= b <= 122 {
        b - 71
    } else if 48 <= b <= 57 {
        b + 4
    } else if b == (if url { 45u8 } else { 43u8 }) {
        62
    } else if b == (if url { 95u8 } else { 47u8 }) {
        63
    } else {
        -1
    }
}

/// Three bytes as a number; missing ones count as zero.
pub open spec fn triple(d: Seq<u8>) -> int {
    d[0] * 65536 + (if d.len() > 1 {
        d[1] * 256
    } else {
        0
    }) + (if d.len() > 2 {
        d[2] as int
    } else {
        0
    })
}

/// The Base64 text of some bytes, without padding.
pub open spec fn b64_text(url: bool, d: Seq<u8>) -> Seq<char>
    decreases d.len(),
{
    if d.len() == 0 {
        Seq::empty()
    } else {
        let n = triple(d);
        let a = alpha_char(url, n / 262144);
        let b = alpha_char(url, n / 4096 % 64);
        let c = alpha_char(url, n / 64 % 64);
        if d.len() == 1 {
            seq![a, b]
        } else if d.len() == 2 {
            seq![a, b, c]
        } else {
            seq![a, b, c, alpha_char(url, n % 64)] + b64_text(url, d.skip(3))
        }
    }
}

/// What `char`'s `Debug` of std writes.
pub uninterp spec fn char_debug(c: char) -> Seq<char>;

/// `format!("{:?}", ..)` of std on a `char`; the result depends on the character alone.
#[verifier::external_body]
pub(crate) fn debug_char(c: char) -> (r: String)
    ensures
        r@ == char_debug(c),
{
    format!("{:?}", c)
}

/// Why a byte is no Base64.
pub open spec fn byte_fault(b: u8) -> Seq<char> {
    if b >= 128 {
        "non-ascii byte "@ + text::decimal(b as int)
    } else {
        "invalid base64 char "@ + char_debug(b as char)
    }
}

/// The first byte that is none of the alphabet.
pub open spec fn first_bad(url: bool, b: Seq<u8>) -> Option<u8>
    decreases b.len(),
{
    if b.len() == 0 {
        None
    } else if alpha_value(url, b[0]) < 0 {
        Some(b[0])
    } else {
        first_bad(url, b.drop_first())
    }
}

/// The bytes that values below 64 stand for.
pub open spec fn joined(v: Seq<int>) -> Seq<u8>
    decreases v.len(),
{
    if v.len() < 2 {
        Seq::empty()
    } else {
        let a = (v[0] * 4 + v[1] / 16) as u8;
        if v.len() == 2 {
            seq![a]
        } else {
            let b = (v[1] % 16 * 16 + v[2] / 4) as u8;
            if v.len() == 3 {
                seq![a, b]
            } else {
                seq![a, b, (v[2] % 4 * 64 + v[3]) as u8] + joined(v.skip(4))
            }
        }
    }
}

/// The values of some bytes.
pub open spec fn values(url: bool, b: Seq<u8>) -> Seq<int> {
    Seq::new(b.len(), |i: int| alpha_value(url, b[i]))
}

/// The bytes that a Base64 text stands for, or what is wrong with it.
pub open spec fn b64_bytes(url: bool, b: Seq<u8>) -> Result<Seq<u8>, Seq<char>> {
    match first_bad(url, b) {
        Some(x) => Err(byte_fault(x)),
        None => if b.len() % 4 == 1 {
            Err("invalid base64 length"@)
        } else {
            Ok(joined(values(url, b)))
        },
    }
}

/// The text without its standard padding: one or two `=` that fill the last group.
pub open spec fn unpadded(b: Seq<u8>) -> Seq<u8> {
    let n = b.len() as int;
    if n < 4 || n % 4 != 0 || b[n - 1] != 61 {
        b
    } else if b[n - 2] == 61 {
        b.take(n - 2)
    } else {
        b.take(n - 1)
    }
}

fn alpha(url: bool, v: u32) -> (c: char)
    requires
        v < 64,
    ensures
        c == alpha_char(url, v as int),
{
    if v < 26 {
        (65 + v as u8) as char
    } else if v < 52 {
        (71 + v as u8) as char
    } else if v < 62 {
        (v as u8 - 4) as char
    } else if v == 62 {
        if url {
            '-'
        } else {
            '+'
        }
    } else {
        if url {
            '_'
        } else {
            '/'
        }
    }
}

fn encode_impl(data: &[u8], url: bool) -> (r: String)
    ensures
        r@ == b64_text(url, data@),
{
    let n: usize = data.len();
    let mut out = String::new();
    let mut i: usize = 0;
    proof {
        assert(data@.skip(0) =~= data@);
        assert(Seq::<char>::empty() + b64_text(url, data@) =~= b64_text(url, data@));
        assert(out@ =~= Seq::empty());
    }
    while i < n
        invariant
            i <= n,
            n == data@.len(),
            b64_text(url, data@) == out@ + b64_text(url, data@.skip(i as int)),
        decreases n - i,
    {
        let ghost d = data@.skip(i as int);
        let ghost had = out@;
        let left: usize = n - i;
        let b0: u32 = data[i] as u32;
        let b1: u32 = if left > 1 {
            data[i + 1] as u32
        } else {
            0
        };
        let b2: u32 = if left > 2 {
            data[i + 2] as u32
        } else {
            0
        };
        let x: u32 = b0 * 65536 + b1 * 256 + b2;
        assert(x == triple(d));
        out.push(alpha(url, x / 262144));
        out.push(alpha(url, x / 4096 % 64));
        if left > 1 {
            out.push(alpha(url, x / 64 % 64));
        }
        if left > 2 {
            out.push(alpha(url, x % 64));
            i += 3;
            proof {
                assert(d.skip(3) =~= data@.skip(i as int));
                assert(out@ + b64_text(url, d.skip(3)) =~= had + b64_text(url, d));
            }
        } else {
            proof {
                assert(data@.skip(n as int) =~= Seq::empty());
                assert(out@ =~= had + b64_text(url, d));
                assert(out@ + Seq::<char>::empty() =~= out@);
            }
            i = n;
        }
    }
    assert(out@ + b64_text(url, data@.skip(i as int)) =~= out@);
    out
}

fn value_of(url: bool, b: u8) -> (r: Option<u8>)
    ensures
        match r {
            Some(v) => v == alpha_value(url, b) && v < 64,
            None => alpha_value(url, b) < 0,
        },
{
    if 65 <= b && b <= 90 {
        Some(b - 65)
    } else if 97 <= b && b <= 122 {
        Some(b - 71)
    } else if 48 <= b && b <= 57 {
        Some(b + 4)
    } else if (url && b == 45) || (!url && b == 43) {
        Some(62)
    } else if (url && b == 95) || (!url && b == 47) {
        Some(63)
    } else {
        None
    }
}

/// The values of the bytes, or what is wrong with the first bad one.
fn read_values(b: &[u8], url: bool) -> (r: Result<Vec<u8>, String>)
    ensures
        match first_bad(url, b@) {
            Some(x) => r matches Err(e) && e@ == byte_fault(x),
            None => {
                &&& r matches Ok(v)
                &&& v@.len() == b@.len()
                &&& forall|i: int| 0 <= i < v@.len() ==> (#[trigger] v@[i]) < 64 && v@[i] == values(url, b@)[i]
            },
        },
{
    let mut out: Vec<u8> = Vec::new();
    let mut i: usize = 0;
    assert(b@.skip(0) =~= b@);
    while i < b.len()
        invariant
            i <= b@.len(),
            out@.len() == i,
            first_bad(url, b@) == first_bad(url, b@.skip(i as int)),
            forall|j: int| 0 <= j < i ==> (#[trigger] out@[j]) < 64 && out@[j] == values(url, b@)[j],
        decreases b@.len() - i,
    {
        proof {
            let rest = b@.skip(i as int);
            assert(rest[0] == b@[i as int]);
            assert(rest.drop_first() =~= b@.skip(i + 1));
        }
        let x: u8 = b[i];
        match value_of(url, x) {
            Some(v) => {
                out.push(v);
            },
            None => {
                if x >= 128 {
                    return Err(text::join2("non-ascii byte ", text::dec(x as u64).as_str()));
                }
                return Err(text::join2("invalid base64 char ", debug_char(x as char).as_str()));
            },
        }
        i += 1;
    }
    Ok(out)
}

fn decode_impl(b: &[u8], url: bool) -> (r: Result<Vec<u8>, String>)
    ensures
        match b64_bytes(url, b@) {
            Ok(d) => r matches Ok(v) && v@ == d,
            Err(f) => r matches Err(e) && e@ == f,
        },
{
    let v = match read_values(b, url) {
        Ok(v) => v,
        Err(e) => {
            return Err(e);
        },
    };
    let n: usize = v.len();
    if n % 4 == 1 {
        return Err(text::copy_text("invalid base64 length"));
    }
    let ghost all = values(url, b@);
    let mut out: Vec<u8> = Vec::new();
    let mut i: usize = 0;
    proof {
        assert(all.skip(0) =~= all);
        assert(out@ + joined(all) =~= joined(all));
    }
    while i < n
        invariant
            i <= n,
            n == v@.len(),
            n == all.len(),
            (n - i) % 4 != 1,
            forall|j: int| 0 <= j < n ==> (#[trigger] v@[j]) < 64 && v@[j] == all[j],
            joined(all) == out@ + joined(all.skip(i as int)),
        decreases n - i,
    {
        let ghost rest = all.skip(i as int);
        let ghost had = out@;
        let left: usize = n - i;
        assert(left >= 2);
        let a: u8 = v[i];
        let c: u8 = v[i + 1];
        assert(rest[0] == a && rest[1] == c);
        out.push(a * 4 + c / 16);
        if left == 2 {
            i = n;
        } else {
            let e: u8 = v[i + 2];
            assert(rest[2] == e);
            out.push(c % 16 * 16 + e / 4);
            if left == 3 {
                i = n;
            } else {
                let f: u8 = v[i + 3];
                assert(rest[3] == f);
                out.push(e % 4 * 64 + f);
                i += 4;
            }
        }
        proof {
            if left < 4 {
                assert(all.skip(n as int) =~= Seq::empty());
                assert(out@ =~= had + joined(rest));
                assert(out@ + joined(all.skip(i as int)) =~= out@);
            } else {
                assert(rest.skip(4) =~= all.skip(i as int));
                assert(out@ + joined(rest.skip(4)) =~= had + joined(rest));
            }
        }
    }
    assert(out@ + joined(all.skip(i as int)) =~= out@);
    Ok(out)
}

pub fn b64_encode(data: &[u8]) -> (r: String)
    ensures
        r@ == b64_text(false, data@),
{
    encode_impl(data, false)
}

/// Read Base64, with or without padding.
pub fn b64_decode(s: &str) -> (r: Result<Vec<u8>, String>)
    ensures
        match b64_bytes(false, unpadded(text::utf8(s@))) {
            Ok(d) => r matches Ok(v) && v@ == d,
            Err(f) => r matches Err(e) && e@ == f,
        },
{
    let b = s.as_bytes();
    let n: usize = b.len();
    let mut end: usize = n;
    if n >= 4 && n % 4 == 0 && b[n - 1] == 61 {
        if b[n - 2] == 61 {
            end = n - 2;
        } else {
            end = n - 1;
        }
    }
    let part = vstd::slice::slice_subrange(b, 0, end);
    assert(part@ =~= unpadded(text::utf8(s@)));
    decode_impl(part, false)
}

pub fn b64url_encode(data: &[u8]) -> (r: String)
    ensures
        r@ == b64_text(true, data@),
{
    encode_impl(data, true)
}

pub fn b64url_decode(s: &str) -> (r: Result<Vec<u8>, String>)
    ensures
        match b64_bytes(true, text::utf8(s@)) {
            Ok(d) => r matches Ok(v) && v@ == d,
            Err(f) => r matches Err(e) && e@ == f,
        },
{
    decode_impl(s.as_bytes(), true)
}

// ---------- laws ----------

proof fn lemma_alpha(url: bool, v: int)
    requires
        0 <= v < 64,
    ensures
        '\0' <= alpha_char(url, v) <= '\u{7f}',
        alpha_value(url, alpha_char(url, v) as u8) == v,
        alpha_char(url, v) as u8 != 61,
{
}

/// The four values of three bytes.
proof fn lemma_sextets(a: u32, b: u32, c: u32, n: u32)
    requires
        a < 256,
        b < 256,
        c < 256,
        n == a * 65536 + b * 256 + c,
    ensures
        n / 262144 == a / 4,
        n / 4096 % 64 == a % 4 * 16 + b / 16,
        n / 64 % 64 == b % 16 * 4 + c / 64,
        n % 64 == c % 64,
{
    assert(n / 262144 == a / 4) by (bit_vector)
        requires
            a < 256,
            b < 256,
            c < 256,
            n == a * 65536 + b * 256 + c,
    ;
    assert(n / 4096 % 64 == a % 4 * 16 + b / 16) by (bit_vector)
        requires
            a < 256,
            b < 256,
            c < 256,
            n == a * 65536 + b * 256 + c,
    ;
    assert(n / 64 % 64 == b % 16 * 4 + c / 64) by (bit_vector)
        requires
            a < 256,
            b < 256,
            c < 256,
            n == a * 65536 + b * 256 + c,
    ;
    assert(n % 64 == c % 64) by (bit_vector)
        requires
            a < 256,
            b < 256,
            c < 256,
            n == a * 65536 + b * 256 + c,
    ;
}

proof fn lemma_triple(d: Seq<u8>)
    requires
        d.len() > 0,
    ensures
        ({
            let n = triple(d);
            let b = if d.len() > 1 {
                d[1] as int
            } else {
                0
            };
            let c = if d.len() > 2 {
                d[2] as int
            } else {
                0
            };
            &&& n / 262144 == d[0] as int / 4
            &&& n / 4096 % 64 == d[0] as int % 4 * 16 + b / 16
            &&& n / 64 % 64 == b % 16 * 4 + c / 64
            &&& n % 64 == c % 64
        }),
{
    let b: u32 = if d.len() > 1 {
        d[1] as u32
    } else {
        0
    };
    let c: u32 = if d.len() > 2 {
        d[2] as u32
    } else {
        0
    };
    lemma_sextets(d[0] as u32, b, c, triple(d) as u32);
}

/// The text as bytes, character for byte.
spec fn as_bytes(t: Seq<char>) -> Seq<u8> {
    Seq::new(t.len(), |i: int| t[i] as u8)
}

/// The encoding is ASCII of the alphabet, no padding in it, and reads as the bytes.
spec fn reads_back(url: bool, d: Seq<u8>) -> bool {
    let t = b64_text(url, d);
    let b = as_bytes(t);
    &&& vstd::utf8::is_ascii_chars(t)
    &&& forall|i: int| 0 <= i < b.len() ==> 0 <= alpha_value(url, #[trigger] b[i]) < 64 && b[i] != 61
    &&& b.len() % 4 != 1
    &&& joined(values(url, b)) == d
}

proof fn lemma_short(url: bool, d: Seq<u8>)
    requires
        0 < d.len() <= 2,
    ensures
        reads_back(url, d),
{
    let t = b64_text(url, d);
    let b = as_bytes(t);
    let v = values(url, b);
    let n = triple(d);
    lemma_triple(d);
    lemma_alpha(url, n / 262144);
    lemma_alpha(url, n / 4096 % 64);
    lemma_alpha(url, n / 64 % 64);
    assert(v[0] == n / 262144);
    assert(v[1] == n / 4096 % 64);
    if d.len() == 2 {
        assert(v[2] == n / 64 % 64);
    }
    assert(joined(v) =~= d);
}

/// The first group of a text and the bytes it reads as.
proof fn lemma_group(url: bool, d: Seq<u8>)
    requires
        d.len() >= 3,
    ensures
        ({
            let t = b64_text(url, d);
            let b = as_bytes(t);
            let v = values(url, b);
            &&& t.len() == 4 + b64_text(url, d.skip(3)).len()
            &&& t.skip(4) == b64_text(url, d.skip(3))
            &&& forall|i: int| 0 <= i < 4 ==> '\0' <= #[trigger] t[i] <= '\u{7f}'
            &&& forall|i: int| 0 <= i < 4 ==> 0 <= alpha_value(url, #[trigger] b[i]) < 64 && b[i] != 61
            &&& v[0] * 4 + v[1] / 16 == d[0]
            &&& v[1] % 16 * 16 + v[2] / 4 == d[1]
            &&& v[2] % 4 * 64 + v[3] == d[2]
        }),
{
    let t = b64_text(url, d);
    let n = triple(d);
    lemma_triple(d);
    lemma_alpha(url, n / 262144);
    lemma_alpha(url, n / 4096 % 64);
    lemma_alpha(url, n / 64 % 64);
    lemma_alpha(url, n % 64);
    assert(t.skip(4) =~= b64_text(url, d.skip(3)));
    assert(t[0] == alpha_char(url, n / 262144));
    assert(t[1] == alpha_char(url, n / 4096 % 64));
    assert(t[2] == alpha_char(url, n / 64 % 64));
    assert(t[3] == alpha_char(url, n % 64));
}

proof fn lemma_round_trip(url: bool, d: Seq<u8>)
    ensures
        reads_back(url, d),
    decreases d.len(),
{
    let t = b64_text(url, d);
    let b = as_bytes(t);
    let v = values(url, b);
    if d.len() == 0 {
        assert(joined(v) =~= d);
    } else if d.len() <= 2 {
        lemma_short(url, d);
    } else {
        lemma_group(url, d);
        let rest = d.skip(3);
        lemma_round_trip(url, rest);
        let t2 = b64_text(url, rest);
        let b2 = as_bytes(t2);
        assert forall|i: int| 4 <= i < t.len() implies #[trigger] t[i] == t2[i - 4] by {
            assert(t.skip(4)[i - 4] == t[i]);
        }
        assert forall|i: int| 0 <= i < t.len() implies '\0' <= #[trigger] t[i] <= '\u{7f}' by {
            if i >= 4 {
                assert(t[i] == t2[i - 4]);
            }
        }
        assert forall|i: int| 0 <= i < b.len() implies 0 <= alpha_value(url, #[trigger] b[i]) < 64 && b[i] != 61 by {
            if i >= 4 {
                assert(b[i] == b2[i - 4]);
            }
        }
        lemma_joined_group(url, d, v, b2);
    }
}

proof fn lemma_joined_group(url: bool, d: Seq<u8>, v: Seq<int>, b2: Seq<u8>)
    requires
        d.len() >= 3,
        v.len() == 4 + b2.len(),
        v.skip(4) =~= values(url, b2),
        joined(values(url, b2)) == d.skip(3),
        v[0] * 4 + v[1] / 16 == d[0],
        v[1] % 16 * 16 + v[2] / 4 == d[1],
        v[2] % 4 * 64 + v[3] == d[2],
    ensures
        joined(v) == d,
{
    assert(joined(v) =~= seq![d[0], d[1], d[2]] + joined(v.skip(4)));
    assert(joined(v) =~= d);
}

proof fn lemma_no_bad(url: bool, b: Seq<u8>)
    requires
        forall|i: int| 0 <= i < b.len() ==> 0 <= alpha_value(url, #[trigger] b[i]) < 64,
    ensures
        first_bad(url, b) is None,
    decreases b.len(),
{
    if b.len() > 0 {
        let rest = b.drop_first();
        assert(alpha_value(url, b[0]) >= 0);
        assert forall|i: int| 0 <= i < rest.len() implies 0 <= alpha_value(url, #[trigger] rest[i]) < 64 by {
            assert(rest[i] == b[i + 1]);
        }
        lemma_no_bad(url, rest);
    }
}

proof fn lemma_text_bytes(url: bool, d: Seq<u8>)
    ensures
        text::utf8(b64_text(url, d)) == as_bytes(b64_text(url, d)),
{
    lemma_round_trip(url, d);
    text::lemma_utf8_ascii(b64_text(url, d));
    assert(text::utf8(b64_text(url, d)) =~= as_bytes(b64_text(url, d)));
}

/// Reading an encoding in either alphabet gives the bytes back.
pub proof fn law_b64_round_trip(url: bool, d: Seq<u8>)
    ensures
        b64_bytes(url, text::utf8(b64_text(url, d))) == Ok::<Seq<u8>, Seq<char>>(d),
{
    lemma_round_trip(url, d);
    lemma_text_bytes(url, d);
    lemma_no_bad(url, text::utf8(b64_text(url, d)));
}

/// Reading the standard alphabet gives the bytes back with padding and without.
pub proof fn law_b64_padding(d: Seq<u8>, pad: nat)
    requires
        pad <= 2,
        pad > 0 ==> (b64_text(false, d).len() + pad) % 4 == 0,
    ensures
        b64_bytes(false, unpadded(text::utf8(b64_text(false, d)) + Seq::new(pad, |i: int| 61u8))) == Ok::<
            Seq<u8>,
            Seq<char>,
        >(d),
{
    lemma_round_trip(false, d);
    lemma_text_bytes(false, d);
    law_b64_round_trip(false, d);
    let t = text::utf8(b64_text(false, d));
    let p = t + Seq::new(pad, |i: int| 61u8);
    assert(forall|i: int| 0 <= i < t.len() ==> #[trigger] t[i] != 61);
    if pad > 0 {
        assert(p.len() >= 4);
        if pad == 1 {
            assert(p[p.len() - 2] == t[t.len() - 1]);
        }
        assert(unpadded(p) =~= t);
    } else {
        assert(p =~= t);
        if t.len() > 0 {
            assert(t[t.len() - 1] != 61);
        }
        assert(unpadded(p) =~= t);
    }
}

/// The letter for a number below 64, in the standard alphabet or in the one for URLs.
pub open spec fn letter(url: bool, v: int) -> char {
    if 0 <= v < 26 {
        ('A' as u32 + v) as char
    } else if 26 <= v < 52 {
        ('a' as u32 + (v - 26)) as char
    } else if 52 <= v < 62 {
        ('0' as u32 + (v - 52)) as char
    } else if v == 62 {
        if url {
            '-'
        } else {
            '+'
        }
    } else if url {
        '_'
    } else {
        '/'
    }
}

proof fn lemma_six_bits(a: int, b: int, c: int)
    requires
        0 <= a < 256,
        0 <= b < 256,
        0 <= c < 256,
    ensures
        ({
            let n = a * 65536 + b * 256 + c;
            &&& n / 262144 == a / 4
            &&& n / 4096 % 64 == a % 4 * 16 + b / 16
            &&& n / 64 % 64 == b % 16 * 4 + c / 64
            &&& n % 64 == c % 64
        }),
{
    let n = a * 65536 + b * 256 + c;
    let (p, q, r, s, t, u) = (a / 4, a % 4, b / 16, b % 16, c / 64, c % 64);
    assert(a == 4 * p + q && b == 16 * r + s && c == 64 * t + u);
    lemma_divided(n, 262144, p, 65536 * q + 4096 * r + 256 * s + 64 * t + u);
    lemma_divided(n, 4096, 64 * p + 16 * q + r, 256 * s + 64 * t + u);
    lemma_divided(64 * p + 16 * q + r, 64, p, 16 * q + r);
    lemma_divided(n, 64, 4096 * p + 1024 * q + 64 * r + 4 * s + t, u);
    lemma_divided(4096 * p + 1024 * q + 64 * r + 4 * s + t, 64, 64 * p + 16 * q + r, 4 * s + t);
}

proof fn lemma_divided(x: int, d: int, q: int, r: int)
    requires
        0 <= r < d,
        x == q * d + r,
    ensures
        x / d == q,
        x % d == r,
{
    vstd::arithmetic::div_mod::lemma_fundamental_div_mod_converse(x, d, q, r);
}

/// The byte at a place; 0 behind the end.
pub open spec fn byte_at(d: Seq<u8>, i: int) -> int {
    if 0 <= i < d.len() {
        d[i] as int
    } else {
        0
    }
}

/// How many letters stand for some bytes.
pub open spec fn letters(n: int) -> int {
    4 * (n / 3) + (if n % 3 == 0 {
        0int
    } else {
        n % 3 + 1
    })
}

/// The first letters stand for the first bytes.
proof fn lemma_first_letters(url: bool, d: Seq<u8>)
    requires
        d.len() > 0,
    ensures
        ({
            let t = b64_text(url, d);
            let (a, b, c) = (byte_at(d, 0), byte_at(d, 1), byte_at(d, 2));
            &&& t.len() >= 2
            &&& t[0] == letter(url, a / 4)
            &&& t[1] == letter(url, a % 4 * 16 + b / 16)
            &&& d.len() > 1 ==> t.len() >= 3 && t[2] == letter(url, b % 16 * 4 + c / 64)
            &&& d.len() > 2 ==> t.len() >= 4 && t[3] == letter(url, c % 64)
            &&& d.len() > 2 ==> t == seq![t[0], t[1], t[2], t[3]] + b64_text(url, d.skip(3))
            &&& d.len() <= 2 ==> t.len() == d.len() + 1
        }),
{
    let (a, b, c) = (byte_at(d, 0), byte_at(d, 1), byte_at(d, 2));
    lemma_six_bits(a, b, c);
    assert(triple(d) == a * 65536 + b * 256 + c);
    let n = triple(d);
    lemma_letter(url, n / 262144);
    lemma_letter(url, n / 4096 % 64);
    lemma_letter(url, n / 64 % 64);
    lemma_letter(url, n % 64);
}

proof fn lemma_letter(url: bool, v: int)
    requires
        0 <= v < 64,
    ensures
        alpha_char(url, v) == letter(url, v),
{
}

/// Base64 writes four letters for three bytes, six bits in each, and two or three letters
/// for the one or two bytes that are left.
pub proof fn law_b64_writes_six_bits_a_letter(url: bool, d: Seq<u8>, q: int)
    requires
        0 <= q,
        3 * q < d.len(),
    ensures
        ({
            let t = b64_text(url, d);
            let (a, b, c) = (byte_at(d, 3 * q), byte_at(d, 3 * q + 1), byte_at(d, 3 * q + 2));
            &&& t.len() == letters(d.len() as int)
            &&& t[4 * q] == letter(url, a / 4)
            &&& t[4 * q + 1] == letter(url, a % 4 * 16 + b / 16)
            &&& 3 * q + 1 < d.len() ==> t[4 * q + 2] == letter(url, b % 16 * 4 + c / 64)
            &&& 3 * q + 2 < d.len() ==> t[4 * q + 3] == letter(url, c % 64)
        }),
    decreases d.len(),
{
    let t = b64_text(url, d);
    lemma_first_letters(url, d);
    if d.len() > 2 {
        let rest = d.skip(3);
        let u = b64_text(url, rest);
        let head = seq![t[0], t[1], t[2], t[3]];
        assert(t == head + u);
        if rest.len() > 0 {
            law_b64_writes_six_bits_a_letter(url, rest, if q > 0 {
                q - 1
            } else {
                0
            });
        } else {
            assert(u.len() == 0);
        }
        assert(letters(d.len() as int) == 4 + letters(rest.len() as int));
        if q > 0 {
            assert(byte_at(rest, 3 * (q - 1)) == byte_at(d, 3 * q));
            assert(byte_at(rest, 3 * (q - 1) + 1) == byte_at(d, 3 * q + 1));
            assert(byte_at(rest, 3 * (q - 1) + 2) == byte_at(d, 3 * q + 2));
            assert(t[4 * q] == u[4 * (q - 1)]);
            assert(t[4 * q + 1] == u[4 * (q - 1) + 1]);
            if 3 * q + 1 < d.len() {
                assert(t[4 * q + 2] == u[4 * (q - 1) + 2]);
            }
            if 3 * q + 2 < d.len() {
                assert(t[4 * q + 3] == u[4 * (q - 1) + 3]);
            }
        }
    }
}

} // verus!
