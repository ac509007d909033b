//! Little-endian bit decomposition of bytes, 128-bit integers and 32-byte
//! encodings.

use crate::field::{le_limb, le_value, Fe};
use vstd::prelude::*;

verus! {

/// Bit `i` of a byte, counted from the least significant one.
pub open spec fn byte_bit(b: u8, i: int) -> bool {
    (b >> (i as u8)) & 1 == 1
}

/// Bit `i` of a 128-bit integer, counted from the least significant one.
pub open spec fn u128_bit(a: u128, i: int) -> bool {
    (a >> (i as u128)) & 1 == 1
}

/// The number whose little-endian binary expansion is `bits`.
pub open spec fn bits_value(bits: Seq<bool>) -> nat
    decreases bits.len(),
{
    if bits.len() == 0 {
        0
    } else {
        (if bits[0] { 1nat } else { 0nat }) + 2 * bits_value(bits.drop_first())
    }
}

/// The sum of `digits[i] * 2^i`.
pub open spec fn weighted_sum(digits: Seq<u64>) -> nat
    decreases digits.len(),
{
    if digits.len() == 0 {
        0
    } else {
        (digits[0] as nat) + 2 * weighted_sum(digits.drop_first())
    }
}

/// A 128-bit integer shifted down by `by` places, and zero where all its
/// bits are shifted out.
pub open spec fn shifted(a: u128, by: int) -> nat {
    if by >= 128 {
        0
    } else {
        (a >> (by as u128)) as nat
    }
}

/// An integer shifted down is its lowest remaining bit plus twice the
/// integer shifted down once more.
pub proof fn lemma_shift_step(a: u128, by: int)
    requires
        0 <= by < 128,
    ensures
        shifted(a, by) == (if u128_bit(a, by) { 1nat } else { 0nat }) + 2 * shifted(a, by + 1),
        shifted(a, 0) == a,
{
    let shift = by as u128;
    assert(a >> 0u128 == a) by (bit_vector);
    if by == 127 {
        assert(a >> 127 == (if (a >> 127) & 1 == 1 { 1u128 } else { 0u128 })) by (bit_vector);
    } else {
        let next = (by + 1) as u128;
        assert(a >> shift == (if (a >> shift) & 1 == 1 { 1u128 } else { 0u128 }) + 2 * (a >> next))
            by (bit_vector)
            requires
                shift < 127,
                next == shift + 1,
        ;
    }
}

/// The bits of a 128-bit integer from position `from` upwards sum up to the
/// integer shifted down by `from`.
proof fn lemma_weighted_sum_suffix(a: u128, digits: Seq<u64>, from: int)
    requires
        digits.len() == 128,
        0 <= from <= 128,
        forall|i: int| 0 <= i < 128 ==> digits[i] == (if u128_bit(a, i) { 1u64 } else { 0u64 }),
    ensures
        weighted_sum(digits.subrange(from, 128)) == shifted(a, from),
    decreases 128 - from,
{
    let tail = digits.subrange(from, 128);
    if from < 128 {
        assert(tail[0] == digits[from]);
        assert(tail.drop_first() =~= digits.subrange(from + 1, 128));
        lemma_weighted_sum_suffix(a, digits, from + 1);
        lemma_shift_step(a, from);
    }
}

/// The eight bits of a byte sum up to the byte.
proof fn lemma_byte_bits_value(b: u8, bits: Seq<bool>)
    requires
        bits.len() == 8,
        forall|i: int| 0 <= i < 8 ==> bits[i] == byte_bit(b, i),
    ensures
        bits_value(bits) == b,
{
    reveal_with_fuel(bits_value, 9);
    let s1 = bits.drop_first();
    let s2 = s1.drop_first();
    let s3 = s2.drop_first();
    let s4 = s3.drop_first();
    let s5 = s4.drop_first();
    let s6 = s5.drop_first();
    let s7 = s6.drop_first();
    assert(s1[0] == bits[1] && s2[0] == bits[2] && s3[0] == bits[3] && s4[0] == bits[4] && s5[0]
        == bits[5] && s6[0] == bits[6] && s7[0] == bits[7]);
    assert(s7.drop_first().len() == 0);
    assert(bits[0] == byte_bit(b, 0) && bits[1] == byte_bit(b, 1) && bits[2] == byte_bit(b, 2)
        && bits[3] == byte_bit(b, 3) && bits[4] == byte_bit(b, 4) && bits[5] == byte_bit(b, 5)
        && bits[6] == byte_bit(b, 6) && bits[7] == byte_bit(b, 7));
    assert(b == (if (b >> 0u8) & 1 == 1 { 1u8 } else { 0u8 }) + 2 * (if (b >> 1u8) & 1 == 1 {
        1u8
    } else {
        0u8
    }) + 4 * (if (b >> 2u8) & 1 == 1 { 1u8 } else { 0u8 }) + 8 * (if (b >> 3u8) & 1 == 1 {
        1u8
    } else {
        0u8
    }) + 16 * (if (b >> 4u8) & 1 == 1 { 1u8 } else { 0u8 }) + 32 * (if (b >> 5u8) & 1 == 1 {
        1u8
    } else {
        0u8
    }) + 64 * (if (b >> 6u8) & 1 == 1 { 1u8 } else { 0u8 }) + 128 * (if (b >> 7u8) & 1 == 1 {
        1u8
    } else {
        0u8
    })) by (bit_vector);
}

/// The eight bits of a byte, least significant first.
pub fn byte_to_le_bits(b: &u8) -> (res: Vec<bool>)
    ensures
        res.len() == 8,
        forall|i: int| 0 <= i < 8 ==> res[i] == byte_bit(*b, i),
        bits_value(res@) == *b,
{
    let byte: u8 = *b;
    let mut t: u8 = byte;
    let mut res: Vec<bool> = Vec::new();
    let mut i: u8 = 0;
    proof {
        assert(byte >> 0u8 == byte) by (bit_vector);
    }
    while i < 8
        invariant
            i <= 8,
            res.len() == i,
            i < 8 ==> t == byte >> i,
            forall|j: int| 0 <= j < i ==> res[j] == byte_bit(byte, j),
        decreases 8 - i,
    {
        res.push(t & 1 == 1);
        proof {
            if i < 7 {
                assert((byte >> i) >> 1u8 == byte >> ((i + 1) as u8)) by (bit_vector)
                    requires
                        i < 7,
                ;
            }
        }
        t = t >> 1;
        i = i + 1;
    }
    proof {
        lemma_byte_bits_value(byte, res@);
    }
    res
}

/// The 128 bits of an integer, least significant first, each as `0` or `1`.
pub fn decompose_u128(a: &u128) -> (res: Vec<u64>)
    ensures
        res.len() == 128,
        forall|i: int| 0 <= i < 128 ==> res[i] == (if u128_bit(*a, i) { 1u64 } else { 0u64 }),
        weighted_sum(res@) == *a,
{
    let value: u128 = *a;
    let mut res: Vec<u64> = Vec::new();
    let mut k: u8 = 0;
    while k < 16
        invariant
            k <= 16,
            res.len() == 8 * k,
            forall|i: int|
                0 <= i < 8 * k ==> res[i] == (if u128_bit(value, i) { 1u64 } else { 0u64 }),
        decreases 16 - k,
    {
        let shift: u128 = 8 * (k as u128);
        let byte: u8 = ((value >> shift) & 0xff) as u8;
        let bits = byte_to_le_bits(&byte);
        let mut j: u8 = 0;
        while j < 8
            invariant
                j <= 8,
                k < 16,
                shift == 8 * k,
                byte == ((value >> shift) & 0xff) as u8,
                bits.len() == 8,
                forall|i: int| 0 <= i < 8 ==> bits[i] == byte_bit(byte, i),
                res.len() == 8 * k + j,
                forall|i: int|
                    0 <= i < 8 * k + j ==> res[i] == (if u128_bit(value, i) { 1u64 } else { 0u64 }),
            decreases 8 - j,
        {
            let digit: u64 = if bits[j as usize] { 1 } else { 0 };
            proof {
                let at: u128 = (shift + j) as u128;
                assert(((byte >> j) & 1 == 1) == ((value >> at) & 1 == 1)) by (bit_vector)
                    requires
                        byte == ((value >> shift) & 0xff) as u8,
                        j < 8,
                        shift <= 120,
                        at == shift + j,
                ;
                assert(bits[j as int] == byte_bit(byte, j as int));
                assert(u128_bit(value, 8 * k + j) == ((value >> at) & 1 == 1));
            }
            res.push(digit);
            j = j + 1;
        }
        k = k + 1;
    }
    proof {
        lemma_weighted_sum_suffix(value, res@, 0);
        assert(res@.subrange(0, 128) =~= res@);
        lemma_shift_step(value, 0);
    }
    res
}

/// The little-endian value of the eight bytes of an encoding that start at
/// `at`.
fn limb_at(bytes: &[u8; 32], at: usize) -> (r: u64)
    requires
        at + 8 <= 32,
    ensures
        r == le_limb(bytes@, at as int),
{
    (bytes[at] as u64) + 0x100 * (bytes[at + 1] as u64) + 0x1_0000 * (bytes[at + 2] as u64)
        + 0x100_0000 * (bytes[at + 3] as u64) + 0x1_0000_0000 * (bytes[at + 4] as u64)
        + 0x100_0000_0000 * (bytes[at + 5] as u64) + 0x1_0000_0000_0000 * (bytes[at + 6] as u64)
        + 0x100_0000_0000_0000 * (bytes[at + 7] as u64)
}

/// Splits a 32-byte little-endian encoding into its high and low 128-bit
/// halves, returned in that order.
pub fn field_decompose_u128(e: &[u8; 32]) -> (r: (u128, u128))
    ensures
        r.1 == le_limb(e@, 0) + 0x1_0000_0000_0000_0000 * le_limb(e@, 8),
        r.0 == le_limb(e@, 16) + 0x1_0000_0000_0000_0000 * le_limb(e@, 24),
        le_value(e@) == r.1 + 0x1_0000_0000_0000_0000_0000_0000_0000_0000 * r.0,
{
    let l0 = limb_at(e, 0);
    let l1 = limb_at(e, 8);
    let l2 = limb_at(e, 16);
    let l3 = limb_at(e, 24);
    let low: u128 = (l0 as u128) + 0x1_0000_0000_0000_0000 * (l1 as u128);
    let high: u128 = (l2 as u128) + 0x1_0000_0000_0000_0000 * (l3 as u128);
    (high, low)
}

/// Splits a 32-byte little-endian encoding into its high and low 128-bit
/// halves and returns each as an element of the base field, high first.
pub fn field_decompose(e: &[u8; 32]) -> (r: (Fe, Fe))
    ensures
        r.0.wf(),
        r.1.wf(),
        le_value(e@) == r.1@ + 0x1_0000_0000_0000_0000_0000_0000_0000_0000 * r.0@,
        r.1@ < 0x1_0000_0000_0000_0000_0000_0000_0000_0000,
        r.0@ < 0x1_0000_0000_0000_0000_0000_0000_0000_0000,
{
    let (high, low) = field_decompose_u128(e);
    (Fe::from_u128(high), Fe::from_u128(low))
}

/// The little-endian value of the bytes of `bytes` from position `from`
/// upwards, scaled down to start at weight one.
pub open spec fn bytes_tail_value(bytes: Seq<u8>, from: int) -> nat
    decreases bytes.len() - from,
{
    if from < 0 || from >= bytes.len() {
        0
    } else {
        (bytes[from] as nat) + 256 * bytes_tail_value(bytes, from + 1)
    }
}

/// The first eight bits weigh in below the rest, which counts 256-fold.
proof fn lemma_bits_value_split(bits: Seq<bool>)
    requires
        bits.len() >= 8,
    ensures
        bits_value(bits) == bits_value(bits.subrange(0, 8)) + 256 * bits_value(
            bits.subrange(8, bits.len() as int),
        ),
{
    reveal_with_fuel(bits_value, 9);
    let head = bits.subrange(0, 8);
    let h1 = head.drop_first();
    let h2 = h1.drop_first();
    let h3 = h2.drop_first();
    let h4 = h3.drop_first();
    let h5 = h4.drop_first();
    let h6 = h5.drop_first();
    let h7 = h6.drop_first();
    let s1 = bits.drop_first();
    let s2 = s1.drop_first();
    let s3 = s2.drop_first();
    let s4 = s3.drop_first();
    let s5 = s4.drop_first();
    let s6 = s5.drop_first();
    let s7 = s6.drop_first();
    assert(h7.drop_first().len() == 0);
    assert(s7.drop_first() =~= bits.subrange(8, bits.len() as int));
    assert(head[0] == bits[0] && h1[0] == bits[1] && h2[0] == bits[2] && h3[0] == bits[3] && h4[0]
        == bits[4] && h5[0] == bits[5] && h6[0] == bits[6] && h7[0] == bits[7]);
    assert(s1[0] == bits[1] && s2[0] == bits[2] && s3[0] == bits[3] && s4[0] == bits[4] && s5[0]
        == bits[5] && s6[0] == bits[6] && s7[0] == bits[7]);
}

/// The bits of the bytes from position `from` upwards sum up to the value
/// of those bytes.
proof fn lemma_bits_of_bytes(bytes: Seq<u8>, bits: Seq<bool>, from: int)
    requires
        bytes.len() == 32,
        bits.len() == 256,
        0 <= from <= 32,
        forall|i: int| 0 <= i < 256 ==> bits[i] == byte_bit(#[trigger] bytes[i / 8], i % 8),
    ensures
        bits_value(bits.subrange(8 * from, 256)) == bytes_tail_value(bytes, from),
    decreases 32 - from,
{
    let tail = bits.subrange(8 * from, 256);
    if from < 32 {
        lemma_bits_of_bytes(bytes, bits, from + 1);
        lemma_bits_value_split(tail);
        assert(tail.subrange(8, tail.len() as int) =~= bits.subrange(8 * (from + 1), 256));
        let head = tail.subrange(0, 8);
        assert forall|j: int| 0 <= j < 8 implies head[j] == byte_bit(bytes[from], j) by {
            let i = 8 * from + j;
            assert(head[j] == bits[i]);
            assert(i / 8 == from && i % 8 == j);
        }
        lemma_byte_bits_value(bytes[from], head);
    }
}

/// The value of all 32 bytes is the little-endian value of the encoding.
proof fn lemma_bytes_tail_is_le_value(bytes: Seq<u8>)
    requires
        bytes.len() == 32,
    ensures
        bytes_tail_value(bytes, 0) == le_value(bytes),
{
    reveal_with_fuel(bytes_tail_value, 9);
    assert(bytes_tail_value(bytes, 32) == 0);
    assert(bytes_tail_value(bytes, 24) == le_limb(bytes, 24));
    assert(bytes_tail_value(bytes, 16) == le_limb(bytes, 16) + 0x1_0000_0000_0000_0000
        * bytes_tail_value(bytes, 24));
    assert(bytes_tail_value(bytes, 8) == le_limb(bytes, 8) + 0x1_0000_0000_0000_0000
        * bytes_tail_value(bytes, 16));
    assert(bytes_tail_value(bytes, 0) == le_limb(bytes, 0) + 0x1_0000_0000_0000_0000
        * bytes_tail_value(bytes, 8));
}

/// The 256 bits of a 32-byte little-endian encoding, least significant
/// first.
pub fn to_le_bits(e: &[u8; 32]) -> (res: Vec<bool>)
    ensures
        res.len() == 256,
        forall|i: int| 0 <= i < 256 ==> res[i] == byte_bit(#[trigger] e@[i / 8], i % 8),
        bits_value(res@) == le_value(e@),
{
    let mut res: Vec<bool> = Vec::new();
    let mut k: usize = 0;
    while k < 32
        invariant
            k <= 32,
            res.len() == 8 * k,
            forall|i: int| 0 <= i < 8 * k ==> res[i] == byte_bit(#[trigger] e@[i / 8], i % 8),
        decreases 32 - k,
    {
        let byte: u8 = e[k];
        let bits = byte_to_le_bits(&byte);
        let mut j: usize = 0;
        while j < 8
            invariant
                j <= 8,
                k < 32,
                byte == e@[k as int],
                bits.len() == 8,
                forall|i: int| 0 <= i < 8 ==> bits[i] == byte_bit(byte, i),
                res.len() == 8 * k + j,
                forall|i: int|
                    0 <= i < 8 * k + j ==> res[i] == byte_bit(#[trigger] e@[i / 8], i % 8),
            decreases 8 - j,
        {
            proof {
                let i = 8 * k + j;
                assert(i / 8 == k && i % 8 == j);
            }
            res.push(bits[j]);
            j = j + 1;
        }
        k = k + 1;
    }
    proof {
        lemma_bits_of_bytes(e@, res@, 0);
        assert(res@.subrange(0, 256) =~= res@);
        lemma_bytes_tail_is_le_value(e@);
    }
    res
}

} // verus!
