//! The radix-2 butterfly network, as functions on sequences of samples.

use crate::bits::{bit_reversal, lemma_bit_reversal_bound, lemma_bit_reversal_involution};
use crate::power::{ceil_log2, is_power_of_two, lemma_power_of_two_halves};
use crate::sample::{nth_power, Sample};
use vstd::arithmetic::power2::pow2;
use vstd::prelude::*;

verus! {

/// The twiddle factor `W^j`, where `W` is the principal `n`-th root of unity
/// in the given direction. It is built from 1 by `j` multiplications by `W`.
pub open spec fn twiddle<S: Sample>(n: nat, exponent_sign_pos: bool, j: nat) -> S {
    nth_power(S::principal_root(n as usize, exponent_sign_pos), j)
}

/// Upper output of a butterfly: `even + w * odd`.
pub open spec fn butterfly_upper<S: Sample>(even: S, odd: S, w: S) -> S {
    even.sum(w.product(odd))
}

/// Lower output of a butterfly: `even - w * odd`.
pub open spec fn butterfly_lower<S: Sample>(even: S, odd: S, w: S) -> S {
    even.difference(w.product(odd))
}

/// The samples of `x` at even indices.
pub open spec fn evens<T>(x: Seq<T>) -> Seq<T> {
    Seq::new(x.len() / 2, |j: int| x[2 * j])
}

/// The samples of `x` at odd indices.
pub open spec fn odds<T>(x: Seq<T>) -> Seq<T> {
    Seq::new(x.len() / 2, |j: int| x[2 * j + 1])
}

/// Combines the transforms `e` and `o` of the even and the odd half of a
/// sequence into the transform of the sequence: with `N = 2 * e.len()`,
/// `Y[j] = E[j] + W^j O[j]` and `Y[j + N/2] = E[j] - W^j O[j]`.
pub open spec fn combined<S: Sample>(e: Seq<S>, o: Seq<S>, exponent_sign_pos: bool) -> Seq<S> {
    let half = e.len();
    Seq::new(
        2 * half,
        |i: int|
            if i < half {
                butterfly_upper(e[i], o[i], twiddle::<S>(2 * half, exponent_sign_pos, i as nat))
            } else {
                butterfly_lower(
                    e[i - half],
                    o[i - half],
                    twiddle::<S>(2 * half, exponent_sign_pos, (i - half) as nat),
                )
            },
    )
}

/// The decimation-in-time transform of `x`: a sequence of one sample is its
/// own transform, a longer one is split by index parity, and the transforms
/// of the two halves are combined.
pub open spec fn dit<S: Sample>(x: Seq<S>, exponent_sign_pos: bool) -> Seq<S>
    decreases x.len(),
{
    if x.len() <= 1 {
        x
    } else {
        combined(dit(evens(x), exponent_sign_pos), dit(odds(x), exponent_sign_pos), exponent_sign_pos)
    }
}

/// The transform of a sequence of power-of-two length has that length.
pub proof fn lemma_dit_len<S: Sample>(x: Seq<S>, exponent_sign_pos: bool)
    requires
        is_power_of_two(x.len()),
    ensures
        dit(x, exponent_sign_pos).len() == x.len(),
    decreases x.len(),
{
    if x.len() > 1 {
        lemma_power_of_two_halves(x.len());
        lemma_dit_len(evens(x), exponent_sign_pos);
        lemma_dit_len(odds(x), exponent_sign_pos);
    }
}

/// `x` in bit-reversed order: the sample at index `i` of `x` stands at index
/// `bit_reversal(i, levels)`. For `x` of length `2^levels` that is the same as
/// saying that index `p` holds the sample from index `bit_reversal(p, levels)`.
pub open spec fn bit_reversed<T>(x: Seq<T>, levels: nat) -> Seq<T> {
    Seq::new(x.len(), |p: int| x[bit_reversal(p as nat, levels) as int])
}

/// In the bit-reversed order the sample from index `i` stands at index
/// `bit_reversal(i, levels)`.
pub proof fn lemma_bit_reversed_placement<T>(x: Seq<T>, levels: nat, i: nat)
    requires
        x.len() == pow2(levels),
        i < x.len(),
    ensures
        bit_reversal(i, levels) < x.len(),
        bit_reversed(x, levels)[bit_reversal(i, levels) as int] == x[i as int],
{
    lemma_bit_reversal_bound(i, levels);
    lemma_bit_reversal_involution(i, levels);
}

/// One level of butterflies on `buf`, on groups of `m = 2^(s+1)` samples: in
/// each group, the sample at offset `j < m/2` and the one at `j + m/2` are
/// replaced by the upper and lower output of their butterfly with twiddle
/// factor `W_m^j`.
pub open spec fn stage<S: Sample>(buf: Seq<S>, s: nat, exponent_sign_pos: bool) -> Seq<S> {
    let m = pow2(s + 1);
    let half = pow2(s);
    Seq::new(
        buf.len(),
        |p: int|
            if p % (m as int) < half {
                butterfly_upper(
                    buf[p],
                    buf[p + half],
                    twiddle::<S>(m, exponent_sign_pos, (p % (m as int)) as nat),
                )
            } else {
                butterfly_lower(
                    buf[p - half],
                    buf[p],
                    twiddle::<S>(m, exponent_sign_pos, (p % (m as int) - half) as nat),
                )
            },
    )
}

/// The working buffer of the iterative transform after `s` levels: the
/// bit-reversed input, then levels `0` to `s - 1` of butterflies.
pub open spec fn dif_levels<S: Sample>(x: Seq<S>, s: nat, exponent_sign_pos: bool) -> Seq<S>
    decreases s,
{
    if s == 0 {
        bit_reversed(x, ceil_log2(x.len()))
    } else {
        stage(dif_levels(x, (s - 1) as nat, exponent_sign_pos), (s - 1) as nat, exponent_sign_pos)
    }
}

/// The iterative transform of `x`: all `log2(x.len())` levels of butterflies
/// on the bit-reversed input.
pub open spec fn dif<S: Sample>(x: Seq<S>, exponent_sign_pos: bool) -> Seq<S> {
    dif_levels(x, ceil_log2(x.len()), exponent_sign_pos)
}

} // verus!
