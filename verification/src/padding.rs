//! Padding a sequence with leading zeros up to a power-of-two length.

use crate::power::{
    ceil_log2, is_power_of_two, lemma_ceil_log2_bounds, lemma_ceil_log2_of_pow2,
    lemma_ceil_log2_unique, lemma_pow2_exponent_order, lemma_pow2_monotonic,
};
use crate::sample::Sample;
use vstd::arithmetic::power2::{lemma2_to64, lemma_pow2_unfold, pow2};
use vstd::bits::lemma_usize_shl_is_mul;
use vstd::prelude::*;

verus! {

/// The length that a sequence of `n` samples is padded to:
/// `2^ceil(log2(n))`, the least power of two that is at least `n`. It is 1
/// for `n == 0`.
pub open spec fn padded_len(n: nat) -> nat {
    pow2(ceil_log2(n))
}

/// `s` behind as many copies of `zero` as bring its length to
/// `padded_len(s.len())`.
pub open spec fn padded<T>(s: Seq<T>, zero: T) -> Seq<T> {
    Seq::new((padded_len(s.len()) - s.len()) as nat, |i: int| zero) + s
}

/// The padded length is a power of two and at least `n`, and no power of two
/// that is at least `n` is smaller.
pub proof fn lemma_padded_len_least(n: nat, e: nat)
    ensures
        is_power_of_two(padded_len(n)),
        n <= padded_len(n),
        n <= pow2(e) ==> padded_len(n) <= pow2(e),
{
    let c = ceil_log2(n);
    lemma_ceil_log2_bounds(n);
    if n <= pow2(e) && c > 0 {
        lemma_pow2_exponent_order((c - 1) as nat, e);
        lemma_pow2_monotonic(c, e);
    }
    if c == 0 {
        lemma_pow2_monotonic(0, e);
    }
}

/// Padding less than doubles a length that is not 0.
pub proof fn lemma_padded_len_below_double(n: nat)
    requires
        n >= 1,
    ensures
        padded_len(n) < 2 * n,
{
    let c = ceil_log2(n);
    lemma2_to64();
    lemma_ceil_log2_bounds(n);
    if c > 0 {
        lemma_pow2_unfold(c);
    }
}

/// A power-of-two length is its own padded length.
pub proof fn lemma_padded_len_of_power(n: nat)
    requires
        is_power_of_two(n),
    ensures
        padded_len(n) == n,
{
    let e = choose|e: nat| n == pow2(e);
    lemma_ceil_log2_of_pow2(e);
}

/// A padded sequence has the padded length.
pub proof fn lemma_padded_length<T>(x: Seq<T>, zero: T)
    ensures
        padded(x, zero).len() == padded_len(x.len()),
{
    lemma_ceil_log2_bounds(x.len());
}

/// Computes the length that `n` samples are padded to.
pub fn padded_length(n: usize) -> (r: usize)
    requires
        padded_len(n as nat) <= usize::MAX,
    ensures
        r == padded_len(n as nat),
{
    let mut i: usize = 1;
    let ghost mut e: nat = 0;
    proof {
        lemma2_to64();
    }
    while i < n
        invariant
            padded_len(n as nat) <= usize::MAX,
            i >= 1,
            i == pow2(e),
            e > 0 ==> pow2((e - 1) as nat) < n,
        decreases usize::MAX - i,
    {
        proof {
            lemma2_to64();
            lemma_padded_len_least(n as nat, 0);
            lemma_pow2_exponent_order(e, ceil_log2(n as nat));
            lemma_pow2_monotonic(e + 1, ceil_log2(n as nat));
            lemma_pow2_unfold(e + 1);
            lemma_usize_shl_is_mul(i, 1);
            e = e + 1;
        }
        i = i << 1;
    }
    proof {
        lemma_ceil_log2_unique(n as nat, e);
    }
    i
}

/// Copies `arr` behind leading copies of `zero`, to the next power-of-two
/// length.
pub fn pad_front<T: Copy>(arr: &[T], zero: T) -> (v: Vec<T>)
    requires
        padded_len(arr.len() as nat) <= usize::MAX,
    ensures
        v@ == padded(arr@, zero),
        v.len() == padded_len(arr.len() as nat),
{
    let n = arr.len();
    let total = padded_length(n);
    proof {
        lemma_ceil_log2_bounds(n as nat);
    }
    let num_pad = total - n;
    let mut v: Vec<T> = Vec::with_capacity(total);
    let mut i: usize = 0;
    while i < num_pad
        invariant
            i <= num_pad,
            v@ == Seq::new(i as nat, |k: int| zero),
        decreases num_pad - i,
    {
        v.push(zero);
        i += 1;
    }
    let mut j: usize = 0;
    while j < n
        invariant
            j <= n,
            n == arr.len(),
            v@ == Seq::new(num_pad as nat, |k: int| zero) + arr@.take(j as int),
        decreases n - j,
    {
        v.push(arr[j]);
        j += 1;
    }
    assert(arr@.take(n as int) == arr@);
    v
}

/// Pads real samples with leading zeros to the next power-of-two length.
pub fn pad_to_nearest_power2<S: Sample>(arr: &[S::Real]) -> (v: Vec<S::Real>)
    requires
        padded_len(arr.len() as nat) <= usize::MAX,
    ensures
        v@ == padded(arr@, S::real_zero_value()),
        v.len() == padded_len(arr.len() as nat),
{
    pad_front(arr, S::real_zero())
}

/// Pads complex samples with leading zeros to the next power-of-two length.
pub fn pad_to_nearest_power2_complex<S: Sample>(arr: &[S]) -> (v: Vec<S>)
    requires
        padded_len(arr.len() as nat) <= usize::MAX,
    ensures
        v@ == padded(arr@, S::zero_value()),
        v.len() == padded_len(arr.len() as nat),
{
    pad_front(arr, S::zero())
}

} // verus!
