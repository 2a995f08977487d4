use vstd::arithmetic::power2::{lemma2_to64, lemma_pow2_strictly_increases, pow2};
use vstd::bits::lemma_u32_shl_is_mul;
use vstd::prelude::*;

verus! {

/// Number of one bits in the binary representation of `x`.
pub open spec fn popcount(x: u32) -> nat
    decreases x,
{
    if x == 0 {
        0
    } else {
        ((x % 2) as nat) + popcount(x / 2)
    }
}

/// `u32::count_ones` of the standard library: the number of ones in the
/// binary representation of its argument. Nothing is proved of it here;
/// the count is stated as `popcount`.
pub assume_specification[ u32::count_ones ](x: u32) -> (r: u32)
    ensures
        r == popcount(x),
;

/// `x` has exactly one bit set.
pub open spec fn is_single_bit(x: u32) -> bool {
    x != 0 && x & ((x - 1) as u32) == 0
}

/// The word whose `bits` lowest bits are set: `2^bits - 1`, saturated at 32 bits.
pub open spec fn low_mask(bits: nat) -> u32 {
    if bits >= 32 {
        0xffff_ffffu32
    } else {
        ((1u32 << (bits as u32)) - 1) as u32
    }
}

/// Bit `pos` of `x` is set. Positions from 32 on hold no bit.
pub open spec fn bit_at(x: u32, pos: nat) -> bool {
    pos < 32 && (x >> (pos as u32)) & 1 == 1
}

/// The lowest set bit of `x` (zero when `x` is zero).
pub open spec fn lowest_bit(x: u32) -> u32 {
    x & ((!x) as u32 + 1) as u32
}

/// Only zero has no bit set.
pub proof fn lemma_popcount_zero(x: u32)
    ensures
        popcount(x) == 0 <==> x == 0,
    decreases x,
{
    if x != 0 {
        if x % 2 == 0 {
            lemma_popcount_zero(x / 2);
        }
    }
}

/// The words with one bit set are those that the test for a single bit passes.
pub proof fn lemma_popcount_single(x: u32)
    ensures
        popcount(x) == 1 <==> is_single_bit(x),
    decreases x,
{
    if x != 0 {
        if x % 2 == 1 {
            lemma_popcount_zero(x / 2);
            assert(x % 2 == 1 ==> ((x & ((x - 1) as u32) == 0) <==> x == 1)) by (bit_vector);
        } else {
            lemma_popcount_single(x / 2);
            assert(x % 2 == 0 && x != 0 ==> ((x & ((x - 1) as u32) == 0) <==> ((x / 2) != 0 && (x
                / 2) & (((x / 2) - 1) as u32) == 0))) by (bit_vector);
        }
    }
}

/// Setting one more bit raises the count by one.
pub proof fn lemma_popcount_set_bit(v: u32, d: u32)
    requires
        is_single_bit(d),
        v & d == 0,
    ensures
        popcount(v | d) == popcount(v) + 1,
    decreases d,
{
    if d == 1 {
        assert(v & 1 == 0 ==> v % 2 == 0 && (v | 1) % 2 == 1 && (v | 1) / 2 == v / 2 && (v | 1)
            != 0) by (bit_vector);
    } else {
        let v2 = v / 2;
        let d2 = d / 2;
        assert(d != 0 && d != 1 && d & ((d - 1) as u32) == 0 && v & d == 0 ==> (d / 2) != 0 && (d
            / 2) & (((d / 2) - 1) as u32) == 0 && (v / 2) & (d / 2) == 0 && (v | d) / 2 == (v / 2)
            | (d / 2) && (v | d) % 2 == v % 2 && (v | d) != 0 && d / 2 < d) by (bit_vector);
        lemma_popcount_set_bit(v2, d2);
    }
}

/// A word below `2^k` has at most `k` bits set.
pub proof fn lemma_popcount_bound(x: u32, k: nat)
    requires
        x <= low_mask(k),
    ensures
        popcount(x) <= k,
    decreases k,
{
    if x != 0 {
        if k >= 32 {
            assert(x / 2 <= 0x7fff_ffffu32 && ((1u32 << 31u32) - 1) as u32 == 0x7fff_ffffu32)
                by (bit_vector);
            lemma_popcount_bound(x / 2, 31);
        } else if k == 0 {
            lemma_low_mask_step(0);
        } else {
            let kk = k as u32;
            assert(0 < kk < 32 && x <= ((1u32 << kk) - 1) as u32 ==> x / 2 <= ((1u32 << ((kk
                - 1) as u32)) - 1) as u32) by (bit_vector);
            lemma_popcount_bound(x / 2, (k - 1) as nat);
        }
    }
}

/// The bit of position `p` and the words that hold the bits below it.
proof fn lemma_low_bits(p: u32)
    by (bit_vector)
    requires
        p < 32,
    ensures
        (1u32 << p) >= 1,
        ((1u32 << 0u32) - 1) as u32 == 0,
        (if p == 31 {
            0xffff_ffffu32
        } else {
            ((1u32 << ((p + 1) as u32)) - 1) as u32
        }) == (((1u32 << p) - 1) as u32) | (1u32 << p),
{
}

/// One more low bit: the word with the `n + 1` lowest bits set is the
/// word with the `n` lowest bits set and the bit of position `n`.
pub proof fn lemma_low_mask_step(n: nat)
    requires
        n < 32,
    ensures
        low_mask(0) == 0,
        (1u32 << (n as u32)) >= 1,
        low_mask(n + 1) == low_mask(n) | (1u32 << (n as u32)),
{
    lemma_low_bits(n as u32);
}

/// What the empty mask does to a word.
pub proof fn lemma_zero_mask(v: u32, m: u32)
    by (bit_vector)
    ensures
        v & 0u32 == 0,
        (m & !0u32 == v) <==> m == v,
{
}

/// The lowest set bit of a word that is not zero is a single bit of that word.
pub proof fn lemma_lowest_bit(x: u32)
    requires
        x != 0,
    ensures
        is_single_bit(lowest_bit(x)),
        lowest_bit(x) & x == lowest_bit(x),
{
    assert(x != 0 ==> {
        let d = x & ((!x) as u32 + 1) as u32;
        d != 0 && d & ((d - 1) as u32) == 0 && d & x == d
    }) by (bit_vector);
}

/// The word whose `bits` lowest bits are set.
pub fn low_word(bits: usize) -> (r: u32)
    ensures
        r == low_mask(bits as nat),
{
    if bits >= 32 {
        0xffff_ffffu32
    } else {
        let b = bits as u32;
        proof {
            lemma_low_mask_step(bits as nat);
        }
        (1u32 << b) - 1
    }
}

/// The word with the `bits` lowest bits set is the largest below `2^bits`.
pub proof fn lemma_low_mask_pow2(bits: nat)
    requires
        bits <= 32,
    ensures
        low_mask(bits) + 1 == pow2(bits),
{
    lemma2_to64();
    if bits < 32 {
        let b = bits as u32;
        lemma_pow2_strictly_increases(bits, 32);
        lemma_u32_shl_is_mul(1u32, b);
        lemma_low_mask_step(bits);
    }
}

} // verus!
