//! Text helpers: characters, decimal and hexadecimal numerals, UTF-8.

use crate::ordmap::same_bytes;
use vstd::prelude::*;
use vstd::string::*;
use vstd::utf8::*;

verus! {

/// `String::push` of std puts one character behind the text.
pub assume_specification[ String::push ](s: &mut String, c: char)
    ensures
        final(s)@ == old(s)@.push(c),
;

/// `String::push_str` of std puts a text behind the text.
pub assume_specification[ String::push_str ](s: &mut String, t: &str)
    ensures
        final(s)@ == old(s)@ + t@,
;

/// What `str`'s `Debug` of std writes for a text: the text in double quotes,
/// with its special characters escaped.
pub uninterp spec fn debug_text(s: Seq<char>) -> Seq<char>;

/// `format!("{:?}", ..)` of std on a `str`; the result depends on the text alone.
#[verifier::external_body]
pub(crate) fn debug_string(s: &str) -> (r: String)
    ensures
        r@ == debug_text(s@),
{
    format!("{:?}", s)
}

/// What `String::from_utf8_lossy` of std makes of bytes that are no UTF-8.
pub uninterp spec fn replaced_text(bytes: Seq<u8>) -> Seq<char>;

/// Bytes as text: UTF-8 as it stands, anything else with replacements.
pub open spec fn lossy_text(bytes: Seq<u8>) -> Seq<char> {
    if valid_utf8(bytes) {
        decode_utf8(bytes)
    } else {
        replaced_text(bytes)
    }
}

/// `String::from_utf8_lossy` of std: bytes that are valid UTF-8 are taken as they
/// stand, other sequences are replaced. How they are replaced is left unsaid.
#[verifier::external_body]
pub(crate) fn lossy_string(bytes: &[u8]) -> (r: String)
    ensures
        r@ == (if valid_utf8(bytes@) {
            decode_utf8(bytes@)
        } else {
            replaced_text(bytes@)
        }),
{
    String::from_utf8_lossy(bytes).into_owned()
}

/// `String::from_utf8` of std: the text whose UTF-8 form the bytes are, if they
/// are valid UTF-8.
#[verifier::external_body]
pub(crate) fn utf8_string(bytes: &[u8]) -> (r: Option<String>)
    ensures
        r is Some <==> valid_utf8(bytes@),
        r matches Some(s) ==> s@ == decode_utf8(bytes@),
{
    String::from_utf8(bytes.to_vec()).ok()
}

/// The UTF-8 form of a text.
pub open spec fn utf8(s: Seq<char>) -> Seq<u8> {
    encode_utf8(s)
}

/// Texts with the same UTF-8 form are the same.
pub proof fn lemma_utf8_injective(a: Seq<char>, b: Seq<char>)
    ensures
        utf8(a) == utf8(b) ==> a == b,
{
    encode_utf8_decode_utf8(a);
    encode_utf8_decode_utf8(b);
}

/// Reading back the UTF-8 form of a text gives the text.
pub proof fn lemma_utf8_decodes(s: Seq<char>)
    ensures
        valid_utf8(utf8(s)),
        decode_utf8(utf8(s)) == s,
{
    encode_utf8_valid_utf8(s);
    encode_utf8_decode_utf8(s);
}

/// Bytes that are UTF-8 are the UTF-8 form of the text they read as.
pub proof fn lemma_utf8_encodes(b: Seq<u8>)
    ensures
        valid_utf8(b) ==> utf8(decode_utf8(b)) == b,
{
    if valid_utf8(b) {
        decode_utf8_encode_utf8(b);
    }
}

/// The UTF-8 form of a joined text is the joined UTF-8 form.
pub proof fn lemma_utf8_concat(a: Seq<char>, b: Seq<char>)
    ensures
        utf8(a + b) == utf8(a) + utf8(b),
    decreases a.len(),
{
    if a.len() == 0 {
        assert(a + b =~= b);
        assert(utf8(a) =~= Seq::<u8>::empty());
        assert(utf8(a) + utf8(b) =~= utf8(b));
    } else {
        lemma_utf8_concat(a.drop_first(), b);
        assert((a + b).drop_first() =~= a.drop_first() + b);
        assert(utf8(a + b) =~= utf8(a) + utf8(b));
    }
}

/// A text of ASCII characters is, byte for character, its UTF-8 form.
pub proof fn lemma_utf8_ascii(s: Seq<char>)
    requires
        is_ascii_chars(s),
    ensures
        utf8(s) == Seq::new(s.len(), |i: int| s[i] as u8),
{
    is_ascii_chars_encode_utf8(s);
    assert(utf8(s) =~= Seq::new(s.len(), |i: int| s[i] as u8));
}

/// Every character takes at least one byte.
pub proof fn lemma_utf8_len(s: Seq<char>)
    ensures
        utf8(s).len() >= s.len(),
    decreases s.len(),
{
    if s.len() > 0 {
        lemma_utf8_len(s.drop_first());
    }
}

/// The view of a text, where there is one.
pub open spec fn opt_view(s: Option<&str>) -> Option<Seq<char>> {
    match s {
        Some(t) => Some(t@),
        None => None,
    }
}

/// Equality of texts.
pub fn same_text(a: &str, b: &str) -> (r: bool)
    ensures
        r == (a@ == b@),
{
    proof {
        lemma_utf8_injective(a@, b@);
    }
    same_bytes(a.as_bytes(), b.as_bytes())
}

/// The characters of a text.
pub fn chars_of(s: &str) -> (r: Vec<char>)
    ensures
        r@ == s@,
{
    let mut r: Vec<char> = Vec::new();
    for c in it: s.chars()
        invariant
            r@ == it.seq().take(it.index()),
            it.seq() == s@,
    {
        r.push(c);
        proof {
            assert(it.seq().take(it.index() + 1) =~= it.seq().take(it.index()).push(c));
        }
    }
    assert(s@.take(s@.len() as int) =~= s@);
    r
}

/// The text of some characters.
pub fn string_of(c: &[char]) -> (r: String)
    ensures
        r@ == c@,
{
    let mut r = String::new();
    let mut i: usize = 0;
    while i < c.len()
        invariant
            i <= c.len(),
            r@ == c@.take(i as int),
        decreases c.len() - i,
    {
        r.push(c[i]);
        i += 1;
        assert(c@.take(i as int) =~= c@.take(i - 1).push(c@[i - 1]));
    }
    assert(c@.take(i as int) =~= c@);
    r
}

/// An owned copy of a text.
pub fn copy_text(s: &str) -> (r: String)
    ensures
        r@ == s@,
{
    s.to_owned()
}

/// Two texts, one behind the other.
pub fn join2(a: &str, b: &str) -> (r: String)
    ensures
        r@ == a@ + b@,
{
    let mut r = a.to_owned();
    r.push_str(b);
    r
}

/// Three texts, one behind the other.
pub fn join3(a: &str, b: &str, c: &str) -> (r: String)
    ensures
        r@ == a@ + b@ + c@,
{
    let mut r = a.to_owned();
    r.push_str(b);
    r.push_str(c);
    r
}

/// The UTF-8 bytes of a text.
pub fn bytes_of(s: &str) -> (r: Vec<u8>)
    ensures
        r@ == utf8(s@),
{
    vstd::slice::slice_to_vec(s.as_bytes())
}

/// The numeral for `n` in base `base`, with digits 0-9 and a-f.
pub open spec fn numeral(n: nat, base: nat) -> Seq<char>
    decreases n,
    when base >= 2
{
    if n < base {
        seq![digit_char(n)]
    } else {
        proof {
            vstd::arithmetic::div_mod::lemma_div_decreases(n as int, base as int);
        }
        numeral(n / base, base).push(digit_char(n % base))
    }
}

/// The character of a digit below 16.
pub open spec fn digit_char(d: nat) -> char {
    if d < 10 {
        (48 + d) as char
    } else {
        (87 + d) as char
    }
}

/// `n` in decimal.
pub open spec fn decimal(n: int) -> Seq<char> {
    if n < 0 {
        seq!['-'] + numeral((-n) as nat, 10)
    } else {
        numeral(n as nat, 10)
    }
}

fn digit(d: u64) -> (c: char)
    requires
        d < 16,
    ensures
        c == digit_char(d as nat),
{
    if d < 10 {
        (48 + d as u8) as char
    } else {
        (87 + d as u8) as char
    }
}

fn numeral_string(n: u64, base: u64) -> (r: String)
    requires
        2 <= base <= 16,
    ensures
        r@ == numeral(n as nat, base as nat),
    decreases n,
{
    if n < base {
        let mut r = String::new();
        r.push(digit(n));
        assert(r@ =~= seq![digit_char(n as nat)]);
        r
    } else {
        assert(n / base < n) by (nonlinear_arith)
            requires
                n >= base,
                base >= 2,
        ;
        let mut r = numeral_string(n / base, base);
        r.push(digit(n % base));
        r
    }
}

/// Write a number in decimal.
pub fn dec(n: u64) -> (r: String)
    ensures
        r@ == decimal(n as int),
{
    numeral_string(n, 10)
}

/// Write a signed number in decimal.
pub fn dec_signed(n: i64) -> (r: String)
    ensures
        r@ == decimal(n as int),
{
    if n >= 0 {
        numeral_string(n as u64, 10)
    } else {
        let m: u64 = (-(n + 1)) as u64 + 1;
        let digits = numeral_string(m, 10);
        proof {
            reveal_strlit("-");
            assert("-"@ =~= seq!['-']);
        }
        join2("-", digits.as_str())
    }
}

/// Write a number in lower-case hexadecimal.
pub fn hex_numeral(n: u64) -> (r: String)
    ensures
        r@ == numeral(n as nat, 16),
{
    numeral_string(n, 16)
}

/// A decimal digit.
pub open spec fn is_digit(c: char) -> bool {
    '0' <= c <= '9'
}

/// The number that decimal digits write.
pub open spec fn digits_value(s: Seq<char>) -> int
    decreases s.len(),
{
    if s.len() == 0 {
        0
    } else {
        digits_value(s.drop_last()) * 10 + (s.last() as int - '0' as int)
    }
}

/// A text without one leading plus sign.
pub open spec fn unsigned(s: Seq<char>) -> Seq<char> {
    if s.len() > 0 && s[0] == '+' {
        s.skip(1)
    } else {
        s
    }
}

/// Some decimal digits and nothing else.
pub open spec fn all_digits(s: Seq<char>) -> bool {
    s.len() > 0 && forall|i: int| 0 <= i < s.len() ==> is_digit(#[trigger] s[i])
}

/// The number that a text writes: decimal digits, after a plus sign or none, that fit.
pub open spec fn u64_of(s: Seq<char>) -> Option<u64> {
    let d = unsigned(s);
    if all_digits(d) && digits_value(d) <= u64::MAX {
        Some(digits_value(d) as u64)
    } else {
        None
    }
}

proof fn lemma_digits_grow(s: Seq<char>, i: int)
    requires
        all_digits(s),
        0 <= i <= s.len(),
    ensures
        0 <= digits_value(s.take(i)) <= digits_value(s),
    decreases s.len() - i,
{
    if i == s.len() {
        assert(s.take(i) =~= s);
        lemma_digits_positive(s);
    } else {
        lemma_digits_grow(s, i + 1);
        assert(s.take(i + 1).drop_last() =~= s.take(i));
        assert(is_digit(s[i]));
        lemma_digits_positive(s.take(i));
    }
}

proof fn lemma_digits_positive(s: Seq<char>)
    requires
        forall|i: int| 0 <= i < s.len() ==> is_digit(#[trigger] s[i]),
    ensures
        digits_value(s) >= 0,
    decreases s.len(),
{
    if s.len() > 0 {
        lemma_digits_positive(s.drop_last());
        assert(is_digit(s[s.len() - 1]));
    }
}

/// Read a number.
pub fn parse_u64(s: &str) -> (r: Option<u64>)
    ensures
        r == u64_of(s@),
{
    let c = chars_of(s);
    let from: usize = if c.len() > 0 && c[0] == '+' {
        1
    } else {
        0
    };
    let ghost d = unsigned(s@);
    assert(d =~= s@.skip(from as int));
    if from == c.len() {
        return None;
    }
    let mut n: u64 = 0;
    let mut i: usize = from;
    assert(d.take(0) =~= Seq::empty());
    while i < c.len()
        invariant
            from <= i <= c@.len(),
            c@ == s@,
            d == unsigned(s@),
            d == s@.skip(from as int),
            n == digits_value(d.take(i - from)),
            forall|j: int| 0 <= j < i - from ==> is_digit(#[trigger] d[j]),
        decreases c@.len() - i,
    {
        let x = c[i];
        assert(x == d[i - from]);
        if x < '0' || x > '9' {
            assert(!is_digit(d[i - from]));
            return None;
        }
        let v: u64 = (x as u32 - '0' as u32) as u64;
        proof {
            assert(d.take(i + 1 - from).drop_last() =~= d.take(i - from));
            if all_digits(d) {
                lemma_digits_grow(d, i + 1 - from);
            }
        }
        if n > (u64::MAX - v) / 10 {
            return None;
        }
        n = n * 10 + v;
        i += 1;
    }
    assert(d.take(i - from) =~= d);
    Some(n)
}

/// A character of white space.
pub open spec fn is_white(c: char) -> bool {
    ||| '\u{9}' <= c <= '\u{d}'
    ||| c == '\u{20}'
    ||| c == '\u{85}'
    ||| c == '\u{a0}'
    ||| c == '\u{1680}'
    ||| '\u{2000}' <= c <= '\u{200a}'
    ||| c == '\u{2028}'
    ||| c == '\u{2029}'
    ||| c == '\u{202f}'
    ||| c == '\u{205f}'
    ||| c == '\u{3000}'
}

/// A text without white space in front.
pub open spec fn trimmed_front(s: Seq<char>) -> Seq<char>
    decreases s.len(),
{
    if s.len() > 0 && is_white(s[0]) {
        trimmed_front(s.skip(1))
    } else {
        s
    }
}

/// A text without white space behind.
pub open spec fn trimmed_back(s: Seq<char>) -> Seq<char>
    decreases s.len(),
{
    if s.len() > 0 && is_white(s.last()) {
        trimmed_back(s.drop_last())
    } else {
        s
    }
}

/// A text without white space around it.
pub open spec fn trimmed(s: Seq<char>) -> Seq<char> {
    trimmed_back(trimmed_front(s))
}

fn white(c: char) -> (r: bool)
    ensures
        r == is_white(c),
{
    ('\u{9}' <= c && c <= '\u{d}') || c == '\u{20}' || c == '\u{85}' || c == '\u{a0}' || c == '\u{1680}' || (
    '\u{2000}' <= c && c <= '\u{200a}') || c == '\u{2028}' || c == '\u{2029}' || c == '\u{202f}' || c
        == '\u{205f}' || c == '\u{3000}'
}

/// A text without white space around it.
pub fn trim(s: &str) -> (r: String)
    ensures
        r@ == trimmed(s@),
{
    let c = chars_of(s);
    let mut from: usize = 0;
    assert(c@.skip(0) =~= c@);
    while from < c.len() && white(c[from])
        invariant
            from <= c@.len(),
            trimmed_front(c@) == trimmed_front(c@.skip(from as int)),
        decreases c@.len() - from,
    {
        assert(c@.skip(from as int).skip(1) =~= c@.skip(from + 1));
        from += 1;
    }
    let ghost k = c@.skip(from as int);
    let mut end: usize = c.len();
    assert(c@.subrange(from as int, end as int) =~= k);
    while end > from && white(c[end - 1])
        invariant
            from <= end <= c@.len(),
            trimmed_back(k) == trimmed_back(c@.subrange(from as int, end as int)),
        decreases end,
    {
        assert(c@.subrange(from as int, end as int).drop_last() =~= c@.subrange(from as int, end - 1));
        end -= 1;
    }
    let mut out = String::new();
    let mut i: usize = from;
    assert(out@ =~= c@.subrange(from as int, from as int));
    while i < end
        invariant
            from <= i <= end <= c@.len(),
            out@ == c@.subrange(from as int, i as int),
        decreases end - i,
    {
        out.push(c[i]);
        i += 1;
        assert(out@ =~= c@.subrange(from as int, i as int));
    }
    out
}

// ---------- JSON ----------

/// A character of a JSON string: quotes, backslashes and control characters are escaped.
pub open spec fn json_char(c: char) -> Seq<char> {
    if c == '"' {
        seq!['\\', '"']
    } else if c == '\\' {
        seq!['\\', '\\']
    } else if c == '\u{8}' {
        seq!['\\', 'b']
    } else if c == '\u{c}' {
        seq!['\\', 'f']
    } else if c == '\n' {
        seq!['\\', 'n']
    } else if c == '\r' {
        seq!['\\', 'r']
    } else if c == '\t' {
        seq!['\\', 't']
    } else if (c as u32) < 0x20 {
        seq!['\\', 'u', '0', '0', digit_char((c as nat) / 16), digit_char((c as nat) % 16)]
    } else {
        seq![c]
    }
}

/// The characters of a JSON string.
pub open spec fn json_chars(s: Seq<char>) -> Seq<char>
    decreases s.len(),
{
    if s.len() == 0 {
        Seq::empty()
    } else {
        json_chars(s.drop_last()) + json_char(s.last())
    }
}

/// A text as a JSON string.
pub open spec fn json_quoted(s: Seq<char>) -> Seq<char> {
    seq!['"'] + json_chars(s) + seq!['"']
}

fn push_json(out: &mut String, c: char)
    ensures
        final(out)@ == old(out)@ + json_char(c),
{
    let ghost had = out@;
    if c == '"' || c == '\\' {
        out.push('\\');
        out.push(c);
    } else if c == '\u{8}' {
        out.push('\\');
        out.push('b');
    } else if c == '\u{c}' {
        out.push('\\');
        out.push('f');
    } else if c == '\n' {
        out.push('\\');
        out.push('n');
    } else if c == '\r' {
        out.push('\\');
        out.push('r');
    } else if c == '\t' {
        out.push('\\');
        out.push('t');
    } else if (c as u32) < 0x20 {
        let n: u64 = c as u64;
        out.push('\\');
        out.push('u');
        out.push('0');
        out.push('0');
        out.push(digit(n / 16));
        out.push(digit(n % 16));
    } else {
        out.push(c);
    }
    assert(out@ =~= had + json_char(c));
}

/// A text as a JSON string.
pub fn json_string(s: &str) -> (r: String)
    ensures
        r@ == json_quoted(s@),
{
    let chars = chars_of(s);
    let mut out = String::new();
    out.push('"');
    let mut i: usize = 0;
    assert(chars@.take(0) =~= Seq::empty());
    assert(out@ =~= seq!['"'] + json_chars(chars@.take(0)));
    while i < chars.len()
        invariant
            i <= chars@.len(),
            out@ == seq!['"'] + json_chars(chars@.take(i as int)),
        decreases chars@.len() - i,
    {
        let ghost had = json_chars(chars@.take(i as int));
        push_json(&mut out, chars[i]);
        proof {
            assert(chars@.take(i + 1).drop_last() =~= chars@.take(i as int));
            assert(out@ =~= seq!['"'] + (had + json_char(chars@[i as int])));
        }
        i += 1;
    }
    assert(chars@.take(i as int) =~= chars@);
    out.push('"');
    assert(out@ =~= json_quoted(s@));
    out
}

proof fn lemma_numeral_reads(n: nat)
    ensures
        all_digits(numeral(n, 10)),
        digits_value(numeral(n, 10)) == n,
    decreases n,
{
    let d = numeral(n, 10);
    if n < 10 {
        assert(d.drop_last() =~= Seq::empty());
        assert(digits_value(d.drop_last()) == 0);
    } else {
        lemma_numeral_reads(n / 10);
        let front = numeral(n / 10, 10);
        assert(d.drop_last() =~= front);
        assert forall|i: int| 0 <= i < d.len() implies is_digit(#[trigger] d[i]) by {
            if i < front.len() {
                assert(d[i] == front[i]);
            }
        }
    }
}

/// A text is read as a decimal number from its digits: a digit behind a number counts
/// ones and makes tens of what stood before it, a plus sign in front changes nothing,
/// and no other character is let in.
pub proof fn law_numbers_are_positional(s: Seq<char>, c: char, i: int)
    ensures
        u64_of(Seq::empty()) is None,
        '0' <= c <= '9' ==> u64_of(seq![c]) == Some((c as u32 - '0' as u32) as u64),
        u64_of(s) matches Some(n) ==> '0' <= c <= '9' && 10 * n + (c as u32 - '0' as u32) <= u64::MAX ==> u64_of(
            s.push(c),
        ) == Some((10 * n + (c as u32 - '0' as u32)) as u64),
        u64_of(s) matches Some(n) ==> '0' <= c <= '9' && 10 * n + (c as u32 - '0' as u32) > u64::MAX ==> u64_of(
            s.push(c),
        ) is None,
        u64_of(s) is Some && s[0] != '+' ==> u64_of(seq!['+'] + s) == u64_of(s),
        0 < i < s.len() && !('0' <= s[i] <= '9') ==> u64_of(s) is None,
        s.len() > 0 && s[0] != '+' && !('0' <= s[0] <= '9') ==> u64_of(s) is None,
{
    let one = seq![c];
    assert(one.drop_last() =~= Seq::empty());
    assert(digits_value(one.drop_last()) == 0);
    assert('0' <= c <= '9' ==> unsigned(one) == one && all_digits(one));
    let d = unsigned(s);
    let more = s.push(c);
    if u64_of(s) is Some {
        lemma_digits_grow(d, 0);
        assert(d.take(0) =~= Seq::empty());
        assert(unsigned(more) =~= d.push(c));
        assert(d.push(c).drop_last() =~= d);
        assert forall|j: int| 0 <= j < d.push(c).len() && '0' <= c <= '9' implies is_digit(#[trigger] d.push(c)[j]) by {
            if j < d.len() {
                assert(d.push(c)[j] == d[j]);
            }
        }
        assert(unsigned(seq!['+'] + s) =~= s);
        if s[0] != '+' {
            assert(d == s);
        }
    }
    if 0 < i < s.len() && !('0' <= s[i] <= '9') {
        if s[0] == '+' {
            assert(d[i - 1] == s[i]);
        } else {
            assert(d[i] == s[i]);
        }
    }
}

/// A number in decimal is made of digits, the last of which counts ones and those before
/// it the tens; and it reads back as the number.
pub proof fn law_decimal_reads_back(n: u64)
    ensures
        u64_of(decimal(n as int)) == Some(n),
        n < 10 ==> decimal(n as int) == seq![('0' as u32 + n) as char],
        n >= 10 ==> decimal(n as int) == decimal(n as int / 10).push(('0' as u32 + n % 10) as char),
    decreases n,
{
    lemma_numeral_reads(n as nat);
    let d = decimal(n as int);
    assert(is_digit(d[0]));
    assert(unsigned(d) == d);
}

/// White space around a text is taken off, and nothing else is.
pub proof fn law_trim_takes_off_white_space(front: Seq<char>, s: Seq<char>, back: Seq<char>)
    requires
        forall|i: int| 0 <= i < front.len() ==> is_white(#[trigger] front[i]),
        forall|i: int| 0 <= i < back.len() ==> is_white(#[trigger] back[i]),
        s.len() > 0 ==> !is_white(s[0]) && !is_white(s.last()),
    ensures
        trimmed(front + s + back) == s,
{
    lemma_trim_front(front, s + back);
    assert(front + s + back =~= front + (s + back));
    if s.len() > 0 {
        assert((s + back)[0] == s[0]);
        assert(trimmed_front(s + back) == s + back);
        lemma_trim_back(s, back);
    } else {
        lemma_all_white(back);
        assert(s + back =~= back);
        assert(trimmed_front(back) =~= Seq::empty());
        assert(s =~= Seq::empty());
    }
}

proof fn lemma_trim_front(front: Seq<char>, s: Seq<char>)
    requires
        forall|i: int| 0 <= i < front.len() ==> is_white(#[trigger] front[i]),
    ensures
        trimmed_front(front + s) == trimmed_front(s),
    decreases front.len(),
{
    let t = front + s;
    if front.len() == 0 {
        assert(t =~= s);
    } else {
        let f = front.skip(1);
        assert(t[0] == front[0]);
        assert(t.skip(1) =~= f + s);
        assert forall|i: int| 0 <= i < f.len() implies is_white(#[trigger] f[i]) by {
            assert(f[i] == front[i + 1]);
        }
        lemma_trim_front(f, s);
    }
}

proof fn lemma_trim_back(s: Seq<char>, back: Seq<char>)
    requires
        s.len() > 0,
        !is_white(s.last()),
        forall|i: int| 0 <= i < back.len() ==> is_white(#[trigger] back[i]),
    ensures
        trimmed_back(s + back) == s,
    decreases back.len(),
{
    let t = s + back;
    if back.len() == 0 {
        assert(t =~= s);
    } else {
        let b = back.drop_last();
        assert(t.last() == back[back.len() - 1]);
        assert(t.drop_last() =~= s + b);
        assert forall|i: int| 0 <= i < b.len() implies is_white(#[trigger] b[i]) by {
            assert(b[i] == back[i]);
        }
        lemma_trim_back(s, b);
    }
}

proof fn lemma_all_white(s: Seq<char>)
    requires
        forall|i: int| 0 <= i < s.len() ==> is_white(#[trigger] s[i]),
    ensures
        trimmed_front(s).len() == 0,
    decreases s.len(),
{
    if s.len() > 0 {
        let t = s.skip(1);
        assert(is_white(s[0]));
        assert forall|i: int| 0 <= i < t.len() implies is_white(#[trigger] t[i]) by {
            assert(t[i] == s[i + 1]);
        }
        lemma_all_white(t);
    }
}

/// A text as a JSON string stands in quotes, character by character: a plain one as it
/// is, a quote and a backslash behind a backslash, and one below the space never bare.
pub proof fn law_json_string_is_escaped(a: Seq<char>, c: char)
    ensures
        json_quoted(Seq::empty()) == seq!['"', '"'],
        json_quoted(a).len() >= 2 && json_quoted(a)[0] == '"' && json_quoted(a).last() == '"',
        json_quoted(a.push(c)) == json_quoted(a).drop_last() + json_char(c) + seq!['"'],
        c != '"' && c != '\\' && (c as u32) >= 32 ==> json_char(c) == seq![c],
        c == '"' || c == '\\' ==> json_char(c) == seq!['\\', c],
        c == '\n' ==> json_char(c) == seq!['\\', 'n'],
        c == '\t' ==> json_char(c) == seq!['\\', 't'],
        c == '\r' ==> json_char(c) == seq!['\\', 'r'],
        (c as u32) < 32 ==> json_char(c).len() >= 2 && json_char(c)[0] == '\\' && forall|i: int|
            0 <= i < json_char(c).len() ==> (#[trigger] json_char(c)[i] as u32) >= 32,
{
    assert(json_quoted(Seq::empty()) =~= seq!['"', '"']);
    assert(a.push(c).drop_last() =~= a);
    assert(json_quoted(a.push(c)) =~= json_quoted(a).drop_last() + json_char(c) + seq!['"']);
}

} // verus!
