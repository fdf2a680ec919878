//! Hexadecimal text.

use crate::text;
use crate::util;
use vstd::prelude::*;

verus! {

/// The value of a hexadecimal digit; -1 for any other character.
pub open spec fn hex_value(c: char) -> int {
    if '0' <= c && c <= '9' {
        c as int - 48
    } else if 'a' <= c && c <= 'f' {
        c as int - 87
    } else if 'A' <= c && c <= 'F' {
        c as int - 55
    } else {
        -1
    }
}

pub open spec fn is_hex_char(c: char) -> bool {
    hex_value(c) >= 0
}

pub open spec fn all_hex(s: Seq<char>) -> bool {
    forall|i: int| 0 <= i < s.len() ==> is_hex_char(#[trigger] s[i])
}

/// Two lower-case digits for each byte.
pub open spec fn hex_text(b: Seq<u8>) -> Seq<char> {
    Seq::new(
        2 * b.len(),
        |i: int|
            if i % 2 == 0 {
                text::digit_char((b[i / 2] / 16) as nat)
            } else {
                text::digit_char((b[i / 2] % 16) as nat)
            },
    )
}

/// One byte for each two digits.
pub open spec fn hex_bytes(s: Seq<char>) -> Seq<u8> {
    Seq::new(s.len() / 2, |i: int| (16 * hex_value(s[2 * i]) + hex_value(s[2 * i + 1])) as u8)
}

/// The place of the first byte from `i` on that is no hexadecimal digit.
pub open spec fn first_odd(b: Seq<u8>, i: int) -> int
    decreases b.len() - i,
{
    if i >= b.len() || !is_hex_char(b[i] as char) {
        i
    } else {
        first_odd(b, i + 1)
    }
}

/// Why a text is no hexadecimal: the count of its bytes is odd, or one of them is no
/// digit.
pub open spec fn hex_fault(s: Seq<char>) -> Seq<char> {
    let b = text::utf8(s);
    if b.len() % 2 != 0 {
        "Odd number of digits"@
    } else {
        let i = first_odd(b, 0);
        "Invalid character "@ + util::char_debug(b[i] as char) + " at position "@ + text::decimal(i)
    }
}

/// `hex::encode`: two lower-case digits for each byte.
#[verifier::external_body]
pub(crate) fn hex_encode(b: &[u8]) -> (r: String)
    ensures
        r@ == hex_text(b@),
{
    hex::encode(b)
}

/// `hex::decode`: one byte for each two digits of either case. An odd count of bytes is
/// refused, and then the first byte that is no digit, each with the text that
/// `hex::FromHexError` shows for it; the byte is shown as `char`'s `Debug` shows it.
#[verifier::external_body]
pub(crate) fn hex_decode(s: &str) -> (r: Result<Vec<u8>, String>)
    ensures
        match r {
            Ok(b) => s@.len() % 2 == 0 && all_hex(s@) && b@ == hex_bytes(s@),
            Err(e) => !(s@.len() % 2 == 0 && all_hex(s@)) && e@ == hex_fault(s@),
        },
{
    hex::decode(s).map_err(|e| e.to_string())
}

/// Decoding an encoding gives the bytes back.
pub proof fn law_hex_round_trip(b: Seq<u8>)
    ensures
        hex_text(b).len() == 2 * b.len(),
        all_hex(hex_text(b)),
        hex_bytes(hex_text(b)) == b,
{
    let t = hex_text(b);
    assert forall|i: int| 0 <= i < t.len() implies is_hex_char(#[trigger] t[i]) by {
        lemma_digit((b[i / 2] / 16) as int);
        lemma_digit((b[i / 2] % 16) as int);
    }
    assert forall|i: int| 0 <= i < b.len() implies #[trigger] hex_bytes(t)[i] == b[i] by {
        lemma_digit((b[i] / 16) as int);
        lemma_digit((b[i] % 16) as int);
        assert((2 * i) / 2 == i);
        assert((2 * i + 1) / 2 == i);
        assert((2 * i) % 2 == 0);
        assert((2 * i + 1) % 2 == 1);
        assert(t[2 * i] == text::digit_char((b[i] / 16) as nat));
        assert(t[2 * i + 1] == text::digit_char((b[i] % 16) as nat));
        assert(16 * (b[i] / 16) + b[i] % 16 == b[i]);
    }
    assert(hex_bytes(t) =~= b);
}

/// The value of a digit's character.
pub proof fn lemma_digit(d: int)
    requires
        0 <= d < 16,
    ensures
        hex_value(text::digit_char(d as nat)) == d,
        text::digit_char(d as nat) != '_',
{
}

/// The number that hexadecimal digits write.
pub open spec fn hex_number(s: Seq<char>) -> int
    decreases s.len(),
{
    if s.len() == 0 {
        0
    } else {
        16 * hex_number(s.drop_last()) + hex_value(s.last())
    }
}

/// What a numeral in base 16 is made of.
pub proof fn lemma_hex_numeral(n: nat)
    ensures
        hex_number(text::numeral(n, 16)) == n,
        all_hex(text::numeral(n, 16)),
        text::numeral(n, 16).len() > 0,
        forall|i: int| 0 <= i < text::numeral(n, 16).len() ==> #[trigger] text::numeral(n, 16)[i] != '_',
    decreases n,
{
    let t = text::numeral(n, 16);
    if n < 16 {
        lemma_digit(n as int);
        assert(t =~= seq![text::digit_char(n)]);
        assert(t.drop_last() =~= Seq::empty());
        assert(hex_number(t.drop_last()) == 0);
    } else {
        lemma_hex_numeral(n / 16);
        lemma_digit((n % 16) as int);
        let front = text::numeral(n / 16, 16);
        assert(t == front.push(text::digit_char(n % 16)));
        assert(t.drop_last() =~= front);
        assert forall|i: int| 0 <= i < t.len() implies is_hex_char(#[trigger] t[i]) && t[i] != '_' by {
            if i < front.len() {
                assert(t[i] == front[i]);
            }
        }
    }
}

/// Dropping digits never makes a number larger.
pub proof fn lemma_hex_prefix(s: Seq<char>, n: int)
    requires
        0 <= n <= s.len(),
        all_hex(s),
    ensures
        0 <= hex_number(s.take(n)) <= hex_number(s),
    decreases s.len(),
{
    if n == s.len() {
        assert(s.take(n) =~= s);
        if s.len() > 0 {
            let d = s.drop_last();
            assert(all_hex(d)) by {
                assert forall|i: int| 0 <= i < d.len() implies is_hex_char(#[trigger] d[i]) by {
                    assert(d[i] == s[i]);
                }
            }
            lemma_hex_prefix(d, d.len() as int);
            assert(is_hex_char(s[s.len() - 1]));
        }
    } else {
        let d = s.drop_last();
        assert(all_hex(d)) by {
            assert forall|i: int| 0 <= i < d.len() implies is_hex_char(#[trigger] d[i]) by {
                assert(d[i] == s[i]);
            }
        }
        assert(d.take(n) =~= s.take(n));
        lemma_hex_prefix(d, n);
        assert(is_hex_char(s[s.len() - 1]));
    }
}

/// The value of a hexadecimal digit, if the character is one.
pub fn hex_digit(c: char) -> (r: Option<u8>)
    ensures
        match r {
            Some(d) => d == hex_value(c),
            None => !is_hex_char(c),
        },
{
    if '0' <= c && c <= '9' {
        Some((c as u32 - 48) as u8)
    } else if 'a' <= c && c <= 'f' {
        Some((c as u32 - 87) as u8)
    } else if 'A' <= c && c <= 'F' {
        Some((c as u32 - 55) as u8)
    } else {
        None
    }
}

} // verus!
