//! CRC-32 in the IEEE 802.3 form.

use vstd::prelude::*;

verus! {

/// One bit of the reflected division by the polynomial.
pub open spec fn crc_bit(c: u32) -> u32 {
    if c & 1 != 0 {
        0xEDB88320 ^ (c >> 1)
    } else {
        c >> 1
    }
}

/// Eight bits of the division.
pub open spec fn crc_eight(c: u32) -> u32 {
    crc_bit(crc_bit(crc_bit(crc_bit(crc_bit(crc_bit(crc_bit(crc_bit(c))))))))
}

/// The running remainder after `data`.
pub open spec fn crc_run(c: u32, data: Seq<u8>) -> u32
    decreases data.len(),
{
    if data.len() == 0 {
        c
    } else {
        crc_eight(crc_run(c, data.drop_last()) ^ data.last() as u32)
    }
}

/// The CRC-32 of `data`.
pub open spec fn crc_of(data: Seq<u8>) -> u32 {
    crc_run(0xFFFF_FFFF, data) ^ 0xFFFF_FFFF
}

/// Dividing eight bits touches only the low byte; the rest is shifted down.
proof fn lemma_low_byte(c: u32)
    ensures
        crc_eight(c) == crc_eight(c & 0xFF) ^ (c >> 8),
{
    assert(crc_eight(c) == crc_eight(c & 0xFF) ^ (c >> 8)) by (bit_vector);
}

fn bit(c: u32) -> (r: u32)
    ensures
        r == crc_bit(c),
{
    if c & 1 != 0 {
        0xEDB88320 ^ (c >> 1)
    } else {
        c >> 1
    }
}

/// The remainders of the 256 byte values.
fn crc_table() -> (t: Vec<u32>)
    ensures
        t@.len() == 256,
        forall|i: int| 0 <= i < 256 ==> #[trigger] t@[i] == crc_eight(i as u32),
{
    let mut t: Vec<u32> = Vec::with_capacity(256);
    let mut i: u32 = 0;
    while i < 256
        invariant
            i <= 256,
            t@.len() == i,
            forall|j: int| 0 <= j < i ==> #[trigger] t@[j] == crc_eight(j as u32),
        decreases 256 - i,
    {
        let c = bit(bit(bit(bit(bit(bit(bit(bit(i))))))));
        t.push(c);
        i += 1;
    }
    t
}

fn run(table: &Vec<u32>, start: u32, data: &[u8]) -> (c: u32)
    requires
        table@.len() == 256,
        forall|i: int| 0 <= i < 256 ==> #[trigger] table@[i] == crc_eight(i as u32),
    ensures
        c == crc_run(start, data@),
{
    let mut c: u32 = start;
    let mut i: usize = 0;
    while i < data.len()
        invariant
            i <= data.len(),
            table@.len() == 256,
            forall|j: int| 0 <= j < 256 ==> #[trigger] table@[j] == crc_eight(j as u32),
            c == crc_run(start, data@.take(i as int)),
        decreases data.len() - i,
    {
        let x: u32 = c ^ data[i] as u32;
        let low: u32 = x & 0xFF;
        assert(x & 0xFF < 256) by (bit_vector);
        let ghost prev = c;
        let shifted: u32 = c >> 8;
        let byte: u8 = data[i];
        assert((prev ^ byte as u32) >> 8 == prev >> 8) by (bit_vector);
        proof {
            lemma_low_byte(x);
            assert(table@[low as int] == crc_eight(low));
        }
        c = table[low as usize] ^ shifted;
        i += 1;
        proof {
            let t = data@.take(i as int);
            assert(t.drop_last() =~= data@.take(i - 1));
            assert(t.last() == byte);
        }
    }
    assert(data@.take(i as int) =~= data@);
    c
}

proof fn lemma_run_concat(c: u32, a: Seq<u8>, b: Seq<u8>)
    ensures
        crc_run(c, a + b) == crc_run(crc_run(c, a), b),
    decreases b.len(),
{
    if b.len() == 0 {
        assert(a + b =~= a);
    } else {
        assert((a + b).drop_last() =~= a + b.drop_last());
        lemma_run_concat(c, a, b.drop_last());
    }
}

/// The CRC-32 of `data`.
pub fn crc32(data: &[u8]) -> (r: u32)
    ensures
        r == crc_of(data@),
{
    let table = crc_table();
    run(&table, 0xFFFF_FFFF, data) ^ 0xFFFF_FFFF
}

/// The CRC-32 of `a` followed by `b`.
pub fn crc32_parts(a: &[u8], b: &[u8]) -> (r: u32)
    ensures
        r == crc_of(a@ + b@),
{
    let table = crc_table();
    let mid = run(&table, 0xFFFF_FFFF, a);
    proof {
        lemma_run_concat(0xFFFF_FFFF, a@, b@);
    }
    run(&table, mid, b) ^ 0xFFFF_FFFF
}

/// The division loses nothing.
proof fn lemma_eight_differs(x: u32, y: u32)
    requires
        x != y,
    ensures
        crc_eight(x) != crc_eight(y),
{
    assert forall|p: u32, q: u32| p != q implies #[trigger] crc_bit(p) != #[trigger] crc_bit(q) by {
        assert(p != q ==> crc_bit(p) != crc_bit(q)) by (bit_vector);
    }
    let (a, b) = (crc_bit(x), crc_bit(y));
    let (a2, b2) = (crc_bit(a), crc_bit(b));
    let (a3, b3) = (crc_bit(a2), crc_bit(b2));
    let (a4, b4) = (crc_bit(a3), crc_bit(b3));
    let (a5, b5) = (crc_bit(a4), crc_bit(b4));
    let (a6, b6) = (crc_bit(a5), crc_bit(b5));
    assert(crc_bit(a6) != crc_bit(b6));
}

proof fn lemma_run_differs(c: u32, data: Seq<u8>, i: int, b: u8)
    requires
        0 <= i < data.len(),
        b != data[i],
    ensures
        crc_run(c, data.update(i, b)) != crc_run(c, data),
    decreases data.len(),
{
    let other = data.update(i, b);
    let front = data.drop_last();
    if i == data.len() - 1 {
        assert(other.drop_last() =~= front);
        let r = crc_run(c, front);
        let x = data[i];
        assert(b != x ==> r ^ (b as u32) != r ^ (x as u32)) by (bit_vector);
        lemma_eight_differs(r ^ b as u32, r ^ x as u32);
    } else {
        assert(other.drop_last() =~= front.update(i, b));
        lemma_run_differs(c, front, i, b);
        let r = crc_run(c, front);
        let q = crc_run(c, front.update(i, b));
        let x = data.last() as u32;
        assert(q != r ==> q ^ x != r ^ x) by (bit_vector);
        lemma_eight_differs(q ^ x, r ^ x);
    }
}

/// A change of one byte changes the CRC-32, and so does a change of any of its bits.
pub proof fn law_changed_byte_changes_crc(data: Seq<u8>, i: int, b: u8)
    requires
        0 <= i < data.len(),
        b != data[i],
    ensures
        crc_of(data.update(i, b)) != crc_of(data),
{
    lemma_run_differs(0xFFFF_FFFF, data, i, b);
    let x = crc_run(0xFFFF_FFFF, data.update(i, b));
    let y = crc_run(0xFFFF_FFFF, data);
    assert(x != y ==> x ^ 0xFFFF_FFFF != y ^ 0xFFFF_FFFF) by (bit_vector);
}

} // verus!
