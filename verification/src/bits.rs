//! Bits of natural numbers and the bit-reversal permutation.

use vstd::arithmetic::div_mod::lemma_div_denominator;
use vstd::arithmetic::power2::{lemma2_to64, lemma_pow2_pos, lemma_pow2_unfold, pow2};
use vstd::prelude::*;

verus! {

/// Bit `j` of `x`, counted from the least significant one: 0 or 1.
pub open spec fn bit(x: nat, j: nat) -> nat {
    (x / pow2(j)) % 2
}

/// The number whose `width` low-order bits are those of `x` in reverse order:
/// bit `j` of `x` becomes bit `width - 1 - j`. Bits of `x` from `width` upwards
/// are dropped.
pub open spec fn bit_reversal(x: nat, width: nat) -> nat
    decreases width,
{
    if width == 0 {
        0
    } else {
        2 * bit_reversal(x, (width - 1) as nat) + bit(x, (width - 1) as nat)
    }
}

/// Dropping the lowest bit moves every other bit one place down.
pub proof fn lemma_bit_of_half(x: nat, j: nat)
    ensures
        x / pow2(j + 1) == (x / 2) / pow2(j),
        x / pow2(j + 1) == (x / pow2(j)) / 2,
        bit(x, j + 1) == bit(x / 2, j),
{
    lemma_pow2_pos(j);
    lemma_pow2_unfold(j + 1);
    lemma_div_denominator(x as int, 2, pow2(j) as int);
    lemma_div_denominator(x as int, pow2(j) as int, 2);
    assert(2 * pow2(j) == pow2(j) * 2);
}

/// The bits of `2 * h + b` are `b` followed by the bits of `h`.
pub proof fn lemma_bit_of_double(h: nat, b: nat, j: nat)
    requires
        b < 2,
    ensures
        bit(2 * h + b, 0) == b,
        bit(2 * h + b, j + 1) == bit(h, j),
{
    lemma2_to64();
    lemma_bit_of_half(2 * h + b, j);
    assert((2 * h + b) / 2 == h);
}

/// A bit reversal of `width` bits is below `2^width`.
pub proof fn lemma_bit_reversal_bound(x: nat, width: nat)
    ensures
        bit_reversal(x, width) < pow2(width),
    decreases width,
{
    if width == 0 {
        lemma2_to64();
    } else {
        lemma_bit_reversal_bound(x, (width - 1) as nat);
        lemma_pow2_unfold(width);
    }
}

/// Bit `j` of the reversal is bit `width - 1 - j` of the argument.
pub proof fn lemma_bit_reversal_bits(x: nat, width: nat, j: nat)
    requires
        j < width,
    ensures
        bit(bit_reversal(x, width), j) == bit(x, (width - 1 - j) as nat),
    decreases width,
{
    let rest = bit_reversal(x, (width - 1) as nat);
    let low = bit(x, (width - 1) as nat);
    if j == 0 {
        lemma_bit_of_double(rest, low, 0);
    } else {
        lemma_bit_of_double(rest, low, (j - 1) as nat);
        lemma_bit_reversal_bits(x, (width - 1) as nat, (j - 1) as nat);
    }
}

/// Two numbers below `2^width` with the same `width` low-order bits are equal.
pub proof fn lemma_equal_bits(a: nat, b: nat, width: nat)
    requires
        a < pow2(width),
        b < pow2(width),
        forall|j: nat| j < width ==> bit(a, j) == bit(b, j),
    ensures
        a == b,
    decreases width,
{
    lemma2_to64();
    if width > 0 {
        lemma_pow2_unfold(width);
        let ha = a / 2;
        let hb = b / 2;
        assert forall|j: nat| j < width - 1 implies bit(ha, j) == bit(hb, j) by {
            lemma_bit_of_half(a, j);
            lemma_bit_of_half(b, j);
            assert(bit(a, j + 1) == bit(b, j + 1));
        }
        lemma_equal_bits(ha, hb, (width - 1) as nat);
        assert(bit(a, 0) == bit(b, 0));
    }
}

/// Reversing the same `width` bits twice gives the number back.
pub proof fn lemma_bit_reversal_involution(x: nat, width: nat)
    requires
        x < pow2(width),
    ensures
        bit_reversal(bit_reversal(x, width), width) == x,
{
    let y = bit_reversal(x, width);
    let z = bit_reversal(y, width);
    lemma_bit_reversal_bound(x, width);
    lemma_bit_reversal_bound(y, width);
    assert forall|j: nat| j < width implies bit(z, j) == bit(x, j) by {
        lemma_bit_reversal_bits(y, width, j);
        lemma_bit_reversal_bits(x, width, (width - 1 - j) as nat);
    }
    lemma_equal_bits(z, x, width);
}

/// On numbers below `2^width`, bit reversal maps different numbers to
/// different numbers.
pub proof fn lemma_bit_reversal_injective(x: nat, y: nat, width: nat)
    requires
        x < pow2(width),
        y < pow2(width),
        bit_reversal(x, width) == bit_reversal(y, width),
    ensures
        x == y,
{
    lemma_bit_reversal_involution(x, width);
    lemma_bit_reversal_involution(y, width);
}

/// Reversal seen from the low end: the lowest bit of `x` becomes the highest
/// of the result, above the reversal of the remaining bits.
pub proof fn lemma_bit_reversal_low_bit(x: nat, width: nat)
    requires
        width > 0,
    ensures
        bit_reversal(x, width) == bit(x, 0) * pow2((width - 1) as nat) + bit_reversal(
            x / 2,
            (width - 1) as nat,
        ),
    decreases width,
{
    lemma2_to64();
    if width == 1 {
        assert(bit_reversal(x, 0) == 0);
        assert(bit_reversal(x / 2, 0) == 0);
    } else {
        lemma_bit_reversal_low_bit(x, (width - 1) as nat);
        lemma_bit_of_half(x, (width - 2) as nat);
        lemma_pow2_unfold((width - 1) as nat);
        assert(bit_reversal(x / 2, (width - 1) as nat) == 2 * bit_reversal(
            x / 2,
            (width - 2) as nat,
        ) + bit(x / 2, (width - 2) as nat));
        assert(2 * (bit(x, 0) * pow2((width - 2) as nat)) == bit(x, 0) * (2 * pow2(
            (width - 2) as nat,
        ))) by (nonlinear_arith);
    }
}

/// Reverses the order of the `num_bits` low-order bits of `input`.
///
/// Up to 32 bits the result is the reversal itself. Beyond that the bits that
/// would land above bit 31 are lost, as in a 32-bit shift register.
pub fn reverse_bits(input: u32, num_bits: u32) -> (ret: u32)
    ensures
        ret as nat == bit_reversal(input as nat, num_bits as nat) % 0x1_0000_0000,
        num_bits <= 32 ==> ret as nat == bit_reversal(input as nat, num_bits as nat),
{
    let mut ret: u32 = 0;
    let mut rest: u32 = input;
    let mut done: u32 = 0;
    proof {
        lemma2_to64();
    }
    while done != num_bits
        invariant
            done <= num_bits,
            ret as nat == bit_reversal(input as nat, done as nat) % 0x1_0000_0000,
            rest as nat == input as nat / pow2(done as nat),
        decreases num_bits - done,
    {
        proof {
            let r = ret;
            let x = rest;
            assert(((r << 1u32) | (1u32 & x)) as nat == (2 * (r as nat) + (x as nat) % 2)
                % 0x1_0000_0000) by (bit_vector);
            assert((x >> 1u32) as nat == (x as nat) / 2) by (bit_vector);
            lemma_bit_of_half(input as nat, done as nat);
        }
        ret = (ret << 1) | 1 & rest;
        rest = rest >> 1;
        done = done + 1;
    }
    proof {
        if num_bits <= 32 {
            lemma_bit_reversal_bound(input as nat, num_bits as nat);
            lemma_pow2_at_most_32(num_bits as nat);
        }
    }
    ret
}

/// Powers of two up to the 32nd are at most `2^32`.
pub proof fn lemma_pow2_at_most_32(e: nat)
    requires
        e <= 32,
    ensures
        pow2(e) <= 0x1_0000_0000,
{
    lemma2_to64();
    if e < 32 {
        vstd::arithmetic::power2::lemma_pow2_strictly_increases(e, 32);
    }
}

} // verus!
