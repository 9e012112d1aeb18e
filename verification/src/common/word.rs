//! Facts about single 32-bit words, the unit in which bit arrays and bit
//! matrices are packed. Bit 0 is the least significant bit of a word.

use vstd::prelude::*;
use vstd::std_specs::bits::{axiom_u32_leading_zeros, axiom_u32_trailing_zeros};

verus! {

/// Whether bit `i` of `word` is set, bit 0 being the least significant.
pub open spec fn bit(word: u32, i: int) -> bool {
    0 <= i < 32 && (word >> (i as u32)) & 1u32 == 1u32
}

/// Whether bit `i` of the byte `b` is set, bit 0 being the least significant.
pub open spec fn byte_bit(b: u8, i: int) -> bool {
    0 <= i < 8 && (b >> (i as u8)) & 1u8 == 1u8
}

// The facts below are about single bits of words and are proved by bit
// blasting; the lemmas behind them state them over `bit`.
proof fn raw_constants(i: u32)
    by (bit_vector)
    requires
        i < 32,
    ensures
        (0u32 >> i) & 1 != 1,
        (0xffff_ffffu32 >> i) & 1 == 1,
{
}

proof fn raw_binary(a: u32, b: u32, i: u32)
    by (bit_vector)
    requires
        i < 32,
    ensures
        ((a | b) >> i) & 1 == 1 <==> ((a >> i) & 1 == 1 || (b >> i) & 1 == 1),
        ((a & b) >> i) & 1 == 1 <==> ((a >> i) & 1 == 1 && (b >> i) & 1 == 1),
        ((a ^ b) >> i) & 1 == 1 <==> (((a >> i) & 1 == 1) != ((b >> i) & 1 == 1)),
        ((!a) >> i) & 1 == 1 <==> (a >> i) & 1 != 1,
{
}

proof fn raw_single(k: u32, i: u32)
    by (bit_vector)
    requires
        k < 32,
        i < 32,
    ensures
        ((1u32 << k) >> i) & 1 == 1 <==> i == k,
        ((0xffff_ffffu32 << k) >> i) & 1 == 1 <==> i >= k,
        ((0xffff_ffffu32 >> k) >> i) & 1 == 1 <==> i + k < 32,
{
}

proof fn raw_shift(w: u32, k: u32, i: u32, j: u32)
    by (bit_vector)
    requires
        k < 32,
        i < 32,
        j < 32,
    ensures
        i + k >= 32 ==> ((w >> k) >> i) & 1 != 1,
        i + k == j ==> (((w >> k) >> i) & 1 == 1 <==> (w >> j) & 1 == 1),
        i < k ==> ((w << k) >> i) & 1 != 1,
        j + k == i ==> (((w << k) >> i) & 1 == 1 <==> (w >> j) & 1 == 1),
{
}

proof fn raw_xor_zero(a: u32, b: u32)
    by (bit_vector)
    ensures
        a ^ b == 0 ==> a == b,
{
}

proof fn raw_test(w: u32, k: u32)
    by (bit_vector)
    requires
        k < 32,
    ensures
        (w & (1u32 << k)) != 0 <==> (w >> k) & 1 == 1,
{
}

/// No bit of the zero word is set; every bit of the all-ones word is.
pub proof fn lemma_bit_constants(i: int)
    ensures
        !bit(0u32, i),
        0 <= i < 32 ==> bit(0xffff_ffffu32, i),
{
    if 0 <= i < 32 {
        raw_constants(i as u32);
    }
}

/// How `|`, `&`, `^` and `!` act on single bits.
pub proof fn lemma_bit_binary(a: u32, b: u32, i: int)
    ensures
        bit(a | b, i) == (bit(a, i) || bit(b, i)),
        bit(a & b, i) == (bit(a, i) && bit(b, i)),
        bit(a ^ b, i) == (bit(a, i) != bit(b, i)),
        0 <= i < 32 ==> bit(!a, i) == !bit(a, i),
{
    if 0 <= i < 32 {
        raw_binary(a, b, i as u32);
    }
}

/// The bits of the three masks that the packed operations are built from:
/// one bit at `k`, every bit from `k` up, and every bit below `32 - k`.
pub proof fn lemma_bit_masks(k: u32, i: int)
    requires
        k < 32,
    ensures
        bit(1u32 << k, i) == (i == k),
        bit(0xffff_ffffu32 << k, i) == (k <= i < 32),
        bit(0xffff_ffffu32 >> k, i) == (0 <= i < 32 - k),
{
    if 0 <= i < 32 {
        raw_single(k, i as u32);
    }
}

/// A right shift by `k` moves bit `i + k` to bit `i`; a left shift moves bit
/// `i - k` to bit `i`. Bits shifted in are clear.
pub proof fn lemma_bit_shift(w: u32, k: u32, i: int)
    requires
        k < 32,
    ensures
        bit(w >> k, i) == (0 <= i && bit(w, i + k)),
        bit(w << k, i) == (i < 32 && bit(w, i - k)),
{
    if 0 <= i < 32 {
        if i + k < 32 {
            raw_shift(w, k, i as u32, (i + k) as u32);
        } else {
            raw_shift(w, k, i as u32, 0);
        }
        if i >= k {
            raw_shift(w, k, i as u32, (i - k) as u32);
        } else {
            raw_shift(w, k, i as u32, 0);
        }
    }
}

/// Testing a word against a one-bit mask reads that bit.
pub proof fn lemma_bit_test(w: u32, k: u32)
    requires
        k < 32,
    ensures
        ((w & (1u32 << k)) != 0) == bit(w, k as int),
{
    raw_test(w, k);
}

/// Two words with the same bits are the same word.
pub proof fn lemma_word_extensional(a: u32, b: u32)
    requires
        forall|i: int| 0 <= i < 32 ==> bit(a, i) == bit(b, i),
    ensures
        a == b,
{
    let x = a ^ b;
    if x != 0 {
        axiom_u32_trailing_zeros(x);
        let t = x.trailing_zeros() as int;
        lemma_bit_binary(a, b, t);
        assert(bit(x, t));
    } else {
        raw_xor_zero(a, b);
    }
}

/// A word is zero exactly when none of its bits is set.
pub proof fn lemma_word_zero(w: u32)
    ensures
        (w == 0) == (forall|i: int| 0 <= i < 32 ==> !bit(w, i)),
{
    if w == 0 {
        assert forall|i: int| 0 <= i < 32 implies !bit(w, i) by {
            lemma_bit_constants(i);
        }
    } else {
        axiom_u32_trailing_zeros(w);
        assert(bit(w, w.trailing_zeros() as int));
    }
}

/// Index of the lowest set bit of a word that is not zero.
pub fn lowest_set_bit(w: u32) -> (r: u32)
    requires
        w != 0,
    ensures
        r < 32,
        bit(w, r as int),
        forall|i: int| 0 <= i < r ==> !bit(w, i),
{
    proof {
        axiom_u32_trailing_zeros(w);
        assert forall|i: int| 0 <= i < w.trailing_zeros() implies !bit(w, i) by {
            let j = i as u32;
            assert((w >> j) & 1u32 == 0u32);
        }
    }
    w.trailing_zeros()
}

/// Index of the highest set bit of a word that is not zero.
pub fn highest_set_bit(w: u32) -> (r: u32)
    requires
        w != 0,
    ensures
        r < 32,
        bit(w, r as int),
        forall|i: int| r < i < 32 ==> !bit(w, i),
{
    proof {
        axiom_u32_leading_zeros(w);
        let z = w.leading_zeros();
        assert(z < 32);
        assert forall|i: int| 31 - z < i < 32 implies !bit(w, i) by {
            let j = i as u32;
            assert((w >> j) & 1u32 == 0u32);
        }
        raw_low_bit(w >> ((31 - z) as u32));
    }
    31 - w.leading_zeros()
}

proof fn raw_low_bit(w: u32)
    by (bit_vector)
    ensures
        w & 1 != 0 ==> w & 1 == 1,
{
}

/// The word whose set bits are exactly those from `first` to `last`, both
/// included.
pub fn range_mask(first: u32, last: u32) -> (m: u32)
    requires
        first <= last < 32,
    ensures
        forall|i: int| bit(m, i) == (first <= i <= last),
{
    let high: u32 = 0xffff_ffffu32 >> (31 - last);
    let low: u32 = 0xffff_ffffu32 << first;
    proof {
        assert forall|i: int| bit(high & low, i) == (first <= i <= last) by {
            lemma_bit_binary(high, low, i);
            lemma_bit_masks((31 - last) as u32, i);
            lemma_bit_masks(first, i);
        }
    }
    high & low
}

proof fn raw_swap(w: u32, i: u32)
    by (bit_vector)
    requires
        i < 32,
    ensures
        ((((w >> 1) & 0x5555_5555u32) | ((w & 0x5555_5555u32) << 1)) >> i) & 1 == (w >> (i ^ 1)) & 1,
        ((((w >> 2) & 0x3333_3333u32) | ((w & 0x3333_3333u32) << 2)) >> i) & 1 == (w >> (i ^ 2)) & 1,
        ((((w >> 4) & 0x0f0f_0f0fu32) | ((w & 0x0f0f_0f0fu32) << 4)) >> i) & 1 == (w >> (i ^ 4)) & 1,
        ((((w >> 8) & 0x00ff_00ffu32) | ((w & 0x00ff_00ffu32) << 8)) >> i) & 1 == (w >> (i ^ 8)) & 1,
        (((w >> 16) | (w << 16)) >> i) & 1 == (w >> (i ^ 16)) & 1,
{
}

/// The word read backwards: bit `i` of the result is bit `31 - i` of `w`.
pub fn reverse_word(w: u32) -> (r: u32)
    ensures
        forall|i: int| 0 <= i < 32 ==> bit(r, i) == bit(w, 31 - i),
{
    let a: u32 = ((w >> 1) & 0x5555_5555u32) | ((w & 0x5555_5555u32) << 1);
    let b: u32 = ((a >> 2) & 0x3333_3333u32) | ((a & 0x3333_3333u32) << 2);
    let c: u32 = ((b >> 4) & 0x0f0f_0f0fu32) | ((b & 0x0f0f_0f0fu32) << 4);
    let d: u32 = ((c >> 8) & 0x00ff_00ffu32) | ((c & 0x00ff_00ffu32) << 8);
    let e: u32 = (d >> 16) | (d << 16);
    proof {
        assert forall|i: int| 0 <= i < 32 implies bit(e, i) == bit(w, 31 - i) by {
            let i0 = i as u32;
            let i1 = i0 ^ 16;
            let i2 = i1 ^ 8;
            let i3 = i2 ^ 4;
            let i4 = i3 ^ 2;
            raw_index(i0);
            raw_swap(d, i0);
            raw_swap(c, i1);
            raw_swap(b, i2);
            raw_swap(a, i3);
            raw_swap(w, i4);
        }
    }
    e
}

proof fn raw_index(i: u32)
    by (bit_vector)
    requires
        i < 32,
    ensures
        ((((i ^ 16) ^ 8) ^ 4) ^ 2) ^ 1 == 31 - i,
        i ^ 16 < 32,
        (i ^ 16) ^ 8 < 32,
        ((i ^ 16) ^ 8) ^ 4 < 32,
        (((i ^ 16) ^ 8) ^ 4) ^ 2 < 32,
{
}

proof fn raw_byte(b: u8, k: u8, i: u8)
    by (bit_vector)
    requires
        k < 8,
        i < 8,
    ensures
        ((b | (1u8 << k)) >> i) & 1 == 1 <==> ((b >> i) & 1 == 1 || i == k),
        (0u8 >> i) & 1 != 1,
{
}

/// Setting bit `k` of a byte sets that bit and leaves the others; the zero
/// byte has no bit set.
pub proof fn lemma_byte_set(b: u8, k: u8, i: int)
    requires
        k < 8,
    ensures
        byte_bit(b | (1u8 << k), i) == (byte_bit(b, i) || i == k),
        !byte_bit(0u8, i),
{
    if 0 <= i < 8 {
        raw_byte(b, k, i as u8);
    }
}

} // verus!
