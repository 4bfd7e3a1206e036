//! The recursive and the iterative transform compute the same samples.
//!
//! After `h` levels the working buffer of the iterative transform consists of
//! groups of `2^h` samples. Group `g` holds the recursive transform of the
//! input samples that the recursion would hand to that group: those at index
//! `bit_reversal(g, levels - h)` and then every `2^(levels - h)`-th.

use crate::bits::{bit_reversal, lemma_bit_reversal_bound, lemma_bit_reversal_low_bit};
use crate::dif::lemma_stage_pair;
use crate::power::{ceil_log2, is_power_of_two, lemma_power_of_two_log};
use crate::sample::Sample;
use crate::transform::{dif, dif_levels, dit, evens, lemma_dit_len, odds};
use vstd::arithmetic::mul::lemma_mul_inequality;
use vstd::arithmetic::power2::{lemma2_to64, lemma_pow2_adds, lemma_pow2_unfold, pow2};
use vstd::prelude::*;

verus! {

/// `count` samples of `x`, from index `offset` on, `stride` apart.
pub open spec fn strided<T>(x: Seq<T>, offset: nat, stride: nat, count: nat) -> Seq<T> {
    Seq::new(count, |j: int| x[offset + j * stride])
}

/// The input samples that group `g` of `2^h` samples is computed from, for an
/// input of `2^levels` samples.
pub open spec fn group<T>(x: Seq<T>, levels: nat, h: nat, g: nat) -> Seq<T> {
    strided(x, bit_reversal(g, (levels - h) as nat), pow2((levels - h) as nat), pow2(h))
}

/// The even-indexed samples of a strided selection are the selection at twice
/// the stride; the odd-indexed ones start one stride later.
pub proof fn lemma_strided_split<T>(x: Seq<T>, offset: nat, stride: nat, half: nat)
    ensures
        evens(strided(x, offset, stride, 2 * half)) == strided(x, offset, 2 * stride, half),
        odds(strided(x, offset, stride, 2 * half)) == strided(
            x,
            offset + stride,
            2 * stride,
            half,
        ),
{
    let whole = strided(x, offset, stride, 2 * half);
    assert forall|j: int| 0 <= j < half implies evens(whole)[j] == strided(
        x,
        offset,
        2 * stride,
        half,
    )[j] by {
        assert((2 * j) * stride == j * (2 * stride)) by (nonlinear_arith);
    }
    assert forall|j: int| 0 <= j < half implies odds(whole)[j] == strided(
        x,
        offset + stride,
        2 * stride,
        half,
    )[j] by {
        assert((2 * j + 1) * stride == stride + j * (2 * stride)) by (nonlinear_arith);
    }
    assert(evens(whole) =~= strided(x, offset, 2 * stride, half));
    assert(odds(whole) =~= strided(x, offset + stride, 2 * stride, half));
}

/// A group of `2^(h+1)` samples is computed from the two groups of `2^h`
/// samples that it covers: its even-indexed input is the input of group
/// `2 * g`, its odd-indexed input that of group `2 * g + 1`.
pub proof fn lemma_group_split<T>(x: Seq<T>, levels: nat, h: nat, g: nat)
    requires
        h < levels,
    ensures
        evens(group(x, levels, h + 1, g)) == group(x, levels, h, 2 * g),
        odds(group(x, levels, h + 1, g)) == group(x, levels, h, 2 * g + 1),
{
    let d = (levels - h - 1) as nat;
    lemma2_to64();
    lemma_pow2_unfold(h + 1);
    lemma_pow2_unfold(d + 1);
    lemma_strided_split(x, bit_reversal(g, d), pow2(d), pow2(h));
    lemma_bit_reversal_low_bit(2 * g, d + 1);
    lemma_bit_reversal_low_bit(2 * g + 1, d + 1);
    assert((2 * g) / 2 == g);
    assert((2 * g + 1) / 2 == g);
    assert(1 * pow2(d) == pow2(d));
    assert(0 * pow2(d) == 0);
}

/// Every level keeps the length of the buffer.
pub proof fn lemma_dif_levels_len<S: Sample>(x: Seq<S>, s: nat, exponent_sign_pos: bool)
    ensures
        dif_levels(x, s, exponent_sign_pos).len() == x.len(),
    decreases s,
{
    if s > 0 {
        lemma_dif_levels_len(x, (s - 1) as nat, exponent_sign_pos);
    }
}

/// After `h` levels, sample `t` of group `g` of the working buffer is sample
/// `t` of the recursive transform of that group's input.
pub proof fn lemma_level_groups<S: Sample>(
    x: Seq<S>,
    exponent_sign_pos: bool,
    h: nat,
    g: nat,
    t: nat,
)
    requires
        is_power_of_two(x.len()),
        h <= ceil_log2(x.len()),
        g < pow2((ceil_log2(x.len()) - h) as nat),
        t < pow2(h),
    ensures
        dif_levels(x, h, exponent_sign_pos)[(g * pow2(h) + t) as int] == dit(
            group(x, ceil_log2(x.len()), h, g),
            exponent_sign_pos,
        )[t as int],
    decreases h,
{
    let levels = ceil_log2(x.len());
    lemma2_to64();
    lemma_power_of_two_log(x.len());
    if h == 0 {
        lemma_bit_reversal_bound(g, levels);
        assert(group(x, levels, 0, g) =~= seq![x[bit_reversal(g, levels) as int]]);
        assert(g * pow2(0) + t == g) by (nonlinear_arith)
            requires
                pow2(0) == 1,
                t == 0,
        ;
    } else {
        let low = (h - 1) as nat;
        let half = pow2(low);
        let m = pow2(h);
        let j = if t < half { t } else { (t - half) as nat };
        let p = g * m + j;
        let prev = dif_levels(x, low, exponent_sign_pos);
        lemma_pow2_unfold(h);
        lemma_pow2_unfold((levels - low) as nat);
        lemma_pow2_adds((levels - h) as nat, h);
        lemma_dif_levels_len(x, low, exponent_sign_pos);
        assert((g + 1) * m <= x.len()) by {
            lemma_mul_inequality(g as int + 1, pow2((levels - h) as nat) as int, m as int);
        }
        // The level combines the pair at offset `j` of the group.
        lemma_stage_pair(prev, low, exponent_sign_pos, g, j, p as int);
        // The two samples of the pair come from groups `2 * g` and `2 * g + 1`.
        assert((2 * g) * half + j == p && (2 * g + 1) * half + j == p + half)
            by (nonlinear_arith)
            requires
                m == 2 * half,
                p == g * m + j,
        ;
        lemma_level_groups(x, exponent_sign_pos, low, 2 * g, j);
        lemma_level_groups(x, exponent_sign_pos, low, 2 * g + 1, j);
        // The recursion combines the transforms of the same two groups.
        lemma_group_split(x, levels, low, g);
        assert(is_power_of_two(half));
        lemma_dit_len(group(x, levels, low, 2 * g), exponent_sign_pos);
        lemma_dit_len(group(x, levels, low, 2 * g + 1), exponent_sign_pos);
    }
}

/// The recursive decimation-in-time transform and the iterative transform of
/// a sequence of power-of-two length are the same sequence, in either
/// direction: sample for sample, the two apply the same operations to the
/// same values.
pub proof fn lemma_dit_dif_agree<S: Sample>(x: Seq<S>, exponent_sign_pos: bool)
    requires
        is_power_of_two(x.len()),
    ensures
        dit(x, exponent_sign_pos) == dif(x, exponent_sign_pos),
{
    let levels = ceil_log2(x.len());
    lemma2_to64();
    lemma_power_of_two_log(x.len());
    lemma_dif_levels_len(x, levels, exponent_sign_pos);
    lemma_dit_len(x, exponent_sign_pos);
    assert(group(x, levels, levels, 0) =~= x) by {
        assert(bit_reversal(0, 0) == 0);
    }
    assert forall|t: int| 0 <= t < x.len() implies dit(x, exponent_sign_pos)[t] == dif(
        x,
        exponent_sign_pos,
    )[t] by {
        lemma_level_groups(x, exponent_sign_pos, levels, 0, t as nat);
        assert(0 * pow2(levels) + t == t);
    }
    assert(dit(x, exponent_sign_pos) =~= dif(x, exponent_sign_pos));
}

} // verus!
