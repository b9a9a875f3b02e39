//! Bytes inside 8-byte words, least significant byte first.

use vstd::prelude::*;

verus! {

/// The weight of byte `t` of a word: 256 to the power `t`.
pub open spec fn byte_weight(t: int) -> int {
    if t == 0 {
        0x1
    } else if t == 1 {
        0x100
    } else if t == 2 {
        0x1_0000
    } else if t == 3 {
        0x100_0000
    } else if t == 4 {
        0x1_0000_0000
    } else if t == 5 {
        0x100_0000_0000
    } else if t == 6 {
        0x1_0000_0000_0000
    } else {
        0x100_0000_0000_0000
    }
}

/// Byte `t` of `word`, counting from the least significant.
pub open spec fn byte_of(word: u64, t: int) -> u8 {
    ((word as int / byte_weight(t)) % 256) as u8
}

/// Byte `i` of `bytes`, or zero beyond its end.
pub open spec fn byte_or_zero(bytes: Seq<u8>, i: int) -> u8 {
    if 0 <= i < bytes.len() {
        bytes[i]
    } else {
        0
    }
}

/// The word made of eight bytes, least significant first.
pub open spec fn le_u64(b0: u8, b1: u8, b2: u8, b3: u8, b4: u8, b5: u8, b6: u8, b7: u8) -> u64 {
    (b0 + 0x100 * b1 + 0x1_0000 * b2 + 0x100_0000 * b3 + 0x1_0000_0000 * b4 + 0x100_0000_0000
        * b5 + 0x1_0000_0000_0000 * b6 + 0x100_0000_0000_0000 * b7) as u64
}

/// Word `j` of `bytes` packed eight to a word, padded with zeros.
pub open spec fn packed(bytes: Seq<u8>, j: int) -> u64 {
    le_u64(
        byte_or_zero(bytes, 8 * j),
        byte_or_zero(bytes, 8 * j + 1),
        byte_or_zero(bytes, 8 * j + 2),
        byte_or_zero(bytes, 8 * j + 3),
        byte_or_zero(bytes, 8 * j + 4),
        byte_or_zero(bytes, 8 * j + 5),
        byte_or_zero(bytes, 8 * j + 6),
        byte_or_zero(bytes, 8 * j + 7),
    )
}

/// The signed 32-bit value in the four low bytes of `word`.
pub open spec fn low_i32(word: u64) -> int {
    crate::memory::signed_32(word as int % 0x1_0000_0000)
}

/// In a number written to the base 256, the digit with weight `weight` is
/// found by dividing by the weight and dropping the higher digits.
proof fn lemma_digit(low: int, weight: int, digit: int, high: int)
    by (nonlinear_arith)
    requires
        0 <= low < weight,
        0 <= digit < 256,
        0 <= high,
    ensures
        ((low + weight * (digit + 256 * high)) / weight) % 256 == digit,
{
    let rest = digit + 256 * high;
    assert((low + weight * rest) / weight == rest) by {
        assert(weight * rest <= low + weight * rest < weight * (rest + 1));
        vstd::arithmetic::div_mod::lemma_div_multiples_vanish_fancy(rest, low, weight);
    }
}

/// Each byte of a word made of eight bytes is the byte it was made of.
pub proof fn lemma_byte_of_le_u64(
    b0: u8,
    b1: u8,
    b2: u8,
    b3: u8,
    b4: u8,
    b5: u8,
    b6: u8,
    b7: u8,
)
    ensures
        byte_of(le_u64(b0, b1, b2, b3, b4, b5, b6, b7), 0) == b0,
        byte_of(le_u64(b0, b1, b2, b3, b4, b5, b6, b7), 1) == b1,
        byte_of(le_u64(b0, b1, b2, b3, b4, b5, b6, b7), 2) == b2,
        byte_of(le_u64(b0, b1, b2, b3, b4, b5, b6, b7), 3) == b3,
        byte_of(le_u64(b0, b1, b2, b3, b4, b5, b6, b7), 4) == b4,
        byte_of(le_u64(b0, b1, b2, b3, b4, b5, b6, b7), 5) == b5,
        byte_of(le_u64(b0, b1, b2, b3, b4, b5, b6, b7), 6) == b6,
        byte_of(le_u64(b0, b1, b2, b3, b4, b5, b6, b7), 7) == b7,
{
    let h7: int = 0;
    let h6: int = b7 as int;
    let h5: int = b6 + 256 * h6;
    let h4: int = b5 + 256 * h5;
    let h3: int = b4 + 256 * h4;
    let h2: int = b3 + 256 * h3;
    let h1: int = b2 + 256 * h2;
    let h0: int = b1 + 256 * h1;
    let l0: int = 0;
    let l1: int = b0 as int;
    let l2: int = l1 + 0x100 * b1;
    let l3: int = l2 + 0x1_0000 * b2;
    let l4: int = l3 + 0x100_0000 * b3;
    let l5: int = l4 + 0x1_0000_0000 * b4;
    let l6: int = l5 + 0x100_0000_0000 * b5;
    let l7: int = l6 + 0x1_0000_0000_0000 * b6;
    let w = le_u64(b0, b1, b2, b3, b4, b5, b6, b7) as int;
    lemma_digit(l0, 0x1, b0 as int, h0);
    assert(w == l0 + 0x1 * (b0 + 256 * h0));
    lemma_digit(l1, 0x100, b1 as int, h1);
    assert(w == l1 + 0x100 * (b1 + 256 * h1));
    lemma_digit(l2, 0x1_0000, b2 as int, h2);
    assert(w == l2 + 0x1_0000 * (b2 + 256 * h2));
    lemma_digit(l3, 0x100_0000, b3 as int, h3);
    assert(w == l3 + 0x100_0000 * (b3 + 256 * h3));
    lemma_digit(l4, 0x1_0000_0000, b4 as int, h4);
    assert(w == l4 + 0x1_0000_0000 * (b4 + 256 * h4));
    lemma_digit(l5, 0x100_0000_0000, b5 as int, h5);
    assert(w == l5 + 0x100_0000_0000 * (b5 + 256 * h5));
    lemma_digit(l6, 0x1_0000_0000_0000, b6 as int, h6);
    assert(w == l6 + 0x1_0000_0000_0000 * (b6 + 256 * h6));
    lemma_digit(l7, 0x100_0000_0000_0000, b7 as int, h7);
    assert(w == l7 + 0x100_0000_0000_0000 * (b7 + 256 * h7));
}

/// Byte `t` of word `j` of packed bytes is byte `8 * j + t` of the bytes.
pub proof fn lemma_byte_of_packed(bytes: Seq<u8>, j: int, t: int)
    requires
        0 <= t < 8,
    ensures
        byte_of(packed(bytes, j), t) == byte_or_zero(bytes, 8 * j + t),
{
    lemma_byte_of_le_u64(
        byte_or_zero(bytes, 8 * j),
        byte_or_zero(bytes, 8 * j + 1),
        byte_or_zero(bytes, 8 * j + 2),
        byte_or_zero(bytes, 8 * j + 3),
        byte_or_zero(bytes, 8 * j + 4),
        byte_or_zero(bytes, 8 * j + 5),
        byte_or_zero(bytes, 8 * j + 6),
        byte_or_zero(bytes, 8 * j + 7),
    );
}

/// Reads byte `t` of `word`.
pub fn unpack_byte(word: u64, t: u8) -> (byte: u8)
    requires
        t < 8,
    ensures
        byte == byte_of(word, t as int),
{
    let weight: u64 = if t == 0 {
        0x1
    } else if t == 1 {
        0x100
    } else if t == 2 {
        0x1_0000
    } else if t == 3 {
        0x100_0000
    } else if t == 4 {
        0x1_0000_0000
    } else if t == 5 {
        0x100_0000_0000
    } else if t == 6 {
        0x1_0000_0000_0000
    } else {
        0x100_0000_0000_0000
    };
    ((word / weight) % 256) as u8
}

/// Reads the signed 32-bit value in the four low bytes of `word`.
pub fn unpack_i32(word: u64) -> (value: i32)
    ensures
        value == low_i32(word),
{
    let low: u64 = word % 0x1_0000_0000;
    if low >= 0x8000_0000 {
        (low as i64 - 0x1_0000_0000) as i32
    } else {
        low as i32
    }
}

/// Byte `i` of the first `count` of `bytes`, or zero beyond them.
fn byte_at_or_zero(bytes: &[u8], count: usize, i: usize) -> (byte: u8)
    requires
        count <= bytes@.len(),
    ensures
        byte == byte_or_zero(bytes@.take(count as int), i as int),
{
    if i < count {
        bytes[i]
    } else {
        0
    }
}

/// Packs bytes `8 * j` to `8 * j + 7` of the first `count` of `bytes` into
/// a word; bytes beyond the first `count` count as zero.
pub fn pack_word(bytes: &[u8], count: usize, j: usize) -> (word: u64)
    requires
        count <= bytes@.len(),
        8 * j + 7 <= usize::MAX,
    ensures
        word == packed(bytes@.take(count as int), j as int),
{
    let start: usize = 8 * j;
    let b0: u64 = byte_at_or_zero(bytes, count, start) as u64;
    let b1: u64 = byte_at_or_zero(bytes, count, start + 1) as u64;
    let b2: u64 = byte_at_or_zero(bytes, count, start + 2) as u64;
    let b3: u64 = byte_at_or_zero(bytes, count, start + 3) as u64;
    let b4: u64 = byte_at_or_zero(bytes, count, start + 4) as u64;
    let b5: u64 = byte_at_or_zero(bytes, count, start + 5) as u64;
    let b6: u64 = byte_at_or_zero(bytes, count, start + 6) as u64;
    let b7: u64 = byte_at_or_zero(bytes, count, start + 7) as u64;
    b0 + 0x100 * b1 + 0x1_0000 * b2 + 0x100_0000 * b3 + 0x1_0000_0000 * b4 + 0x100_0000_0000 * b5
        + 0x1_0000_0000_0000 * b6 + 0x100_0000_0000_0000 * b7
}

} // verus!
