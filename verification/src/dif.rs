//! Iterative transform: bit-reversed input, then one level of butterflies
//! after another, in place.

use crate::bits::{
    bit_reversal, lemma_bit_reversal_bound, lemma_bit_reversal_injective,
    lemma_bit_reversal_involution, reverse_bits,
};
use crate::power::{
    ceil_log2, is_power_of_two, lemma_ceil_log2_unique, lemma_pow2_exponent_order,
    lemma_pow2_monotonic, lemma_power_of_two_log,
};
use crate::sample::{zeros, Sample};
use crate::transform::{bit_reversed, butterfly_lower, butterfly_upper, dif, dif_levels, stage, twiddle};
use vstd::arithmetic::div_mod::lemma_fundamental_div_mod_converse;
use vstd::arithmetic::mul::{lemma_mul_inequality, lemma_mul_is_distributive_add_other_way};
use vstd::arithmetic::power2::{lemma2_to64, lemma_pow2_adds, lemma_pow2_pos, lemma_pow2_unfold, pow2};
use vstd::bits::lemma_usize_shl_is_mul;
use vstd::prelude::*;

verus! {

/// Offset `j` in group `g` of groups of `m`: the index is `g * m + j`, its
/// remainder by `m` is `j`.
pub proof fn lemma_group_offset(g: nat, m: nat, j: nat)
    requires
        j < m,
    ensures
        (g * m + j) % m == j,
        (g * m + j) / m == g,
{
    lemma_fundamental_div_mod_converse((g * m + j) as int, m as int, g as int, j as int);
}

/// The butterfly that a level applies to the pair at offset `j` of group `g`,
/// whose upper sample has index `p`.
pub proof fn lemma_stage_pair<S: Sample>(
    buf: Seq<S>,
    s: nat,
    exponent_sign_pos: bool,
    g: nat,
    j: nat,
    p: int,
)
    requires
        j < pow2(s),
        p == g * pow2(s + 1) + j,
        (g + 1) * pow2(s + 1) <= buf.len(),
    ensures
        0 <= p,
        p + pow2(s) < buf.len(),
        stage(buf, s, exponent_sign_pos)[p] == butterfly_upper(
            buf[p],
            buf[p + pow2(s)],
            twiddle::<S>(pow2(s + 1), exponent_sign_pos, j),
        ),
        stage(buf, s, exponent_sign_pos)[p + pow2(s)] == butterfly_lower(
            buf[p],
            buf[p + pow2(s)],
            twiddle::<S>(pow2(s + 1), exponent_sign_pos, j),
        ),
{
    let m = pow2(s + 1);
    let half = pow2(s);
    lemma_pow2_unfold(s + 1);
    lemma_mul_is_distributive_add_other_way(m as int, g as int, 1);
    lemma_group_offset(g, m, j);
    lemma_group_offset(g, m, j + half);
}

/// Radix-2 transform without recursion: the samples are put in bit-reversed
/// order, then combined level by level, the group size doubling each time.
pub fn cooley_tukey_radix2_dif<S: Sample>(arr: &[S], exponent_sign_pos: bool) -> (output: Vec<S>)
    requires
        is_power_of_two(arr.len() as nat),
        arr.len() <= 0x1_0000_0000,
    ensures
        output@ == dif(arr@, exponent_sign_pos),
        output.len() == arr.len(),
{
    let n = arr.len();
    let mut levels: u32 = 0;
    let mut n_copy: usize = 1;
    proof {
        lemma2_to64();
        lemma_power_of_two_log(n as nat);
    }
    while n_copy < n
        invariant
            n == arr.len(),
            n == pow2(ceil_log2(n as nat)),
            n <= 0x1_0000_0000,
            n_copy >= 1,
            n_copy == pow2(levels as nat),
            levels > 0 ==> pow2((levels - 1) as nat) < n,
            levels <= 32,
        decreases usize::MAX - n_copy,
    {
        proof {
            lemma2_to64();
            lemma_pow2_exponent_order(levels as nat, ceil_log2(n as nat));
            lemma_pow2_monotonic(levels as nat + 1, ceil_log2(n as nat));
            lemma_pow2_unfold(levels as nat + 1);
            lemma_usize_shl_is_mul(n_copy, 1);
            if levels >= 32 {
                lemma_pow2_monotonic(32, levels as nat);
            }
        }
        levels += 1;
        n_copy = n_copy << 1;
    }
    proof {
        lemma_ceil_log2_unique(n as nat, levels as nat);
    }
    let mut output: Vec<S> = zeros(n);
    let mut i: usize = 0;
    while i < n
        invariant
            i <= n,
            n == arr.len(),
            n == pow2(levels as nat),
            n <= 0x1_0000_0000,
            levels <= 32,
            output.len() == n,
            forall|q: int|
                0 <= q < i ==> output@[bit_reversal(q as nat, levels as nat) as int]
                    == #[trigger] arr@[q],
        decreases n - i,
    {
        let rev_num = reverse_bits(i as u32, levels);
        proof {
            lemma_bit_reversal_bound(i as nat, levels as nat);
        }
        let ghost before = output@;
        output[rev_num as usize] = arr[i];
        proof {
            assert forall|q: int| 0 <= q < i implies output@[bit_reversal(
                q as nat,
                levels as nat,
            ) as int] == #[trigger] arr@[q] by {
                lemma_bit_reversal_bound(q as nat, levels as nat);
                if bit_reversal(q as nat, levels as nat) == bit_reversal(i as nat, levels as nat) {
                    lemma_bit_reversal_injective(q as nat, i as nat, levels as nat);
                }
                assert(before[bit_reversal(q as nat, levels as nat) as int] == arr@[q]);
            }
        }
        i += 1;
    }
    proof {
        assert forall|p: int| 0 <= p < n implies output@[p] == bit_reversed(
            arr@,
            levels as nat,
        )[p] by {
            let q = bit_reversal(p as nat, levels as nat);
            lemma_bit_reversal_bound(p as nat, levels as nat);
            lemma_bit_reversal_involution(p as nat, levels as nat);
            assert(output@[bit_reversal(q, levels as nat) as int] == arr@[q as int]);
        }
        assert(output@ =~= bit_reversed(arr@, levels as nat));
    }
    let mut s: u32 = 0;
    while s < levels
        invariant
            s <= levels,
            levels <= 32,
            n == arr.len(),
            n == pow2(levels as nat),
            levels == ceil_log2(n as nat),
            output.len() == n,
            output@ == dif_levels(arr@, s as nat, exponent_sign_pos),
        decreases levels - s,
    {
        proof {
            lemma2_to64();
            lemma_pow2_monotonic(s as nat + 1, levels as nat);
            lemma_pow2_unfold(s as nat + 1);
            lemma_pow2_pos(s as nat);
            lemma_usize_shl_is_mul(1, (s + 1) as usize);
            lemma_pow2_adds((levels - s - 1) as nat, s as nat + 1);
        }
        let m: usize = 1 << (s + 1);
        let half = m / 2;
        let w_base = S::root_of_unity(m, exponent_sign_pos);
        let ghost prev = output@;
        let ghost next = stage(prev, s as nat, exponent_sign_pos);
        let ghost groups = pow2((levels - s - 1) as nat);
        let mut k: usize = 0;
        let ghost mut g: nat = 0;
        while k < n
            invariant
                m == pow2(s as nat + 1),
                half == pow2(s as nat),
                m == 2 * half,
                half >= 1,
                n == groups * m,
                k == g * m,
                g <= groups,
                output.len() == n,
                prev.len() == n,
                next == stage(prev, s as nat, exponent_sign_pos),
                w_base == S::principal_root(m, exponent_sign_pos),
                forall|p: int| 0 <= p < k ==> output@[p] == next[p],
                forall|p: int| k <= p < n ==> output@[p] == prev[p],
            decreases n - k,
        {
            proof {
                lemma_mul_inequality(g as int + 1, groups as int, m as int);
                lemma_mul_is_distributive_add_other_way(m as int, g as int, 1);
            }
            let mut w = S::one();
            let mut j: usize = 0;
            while j < half
                invariant
                    j <= half,
                    m == pow2(s as nat + 1),
                    half == pow2(s as nat),
                    m == 2 * half,
                    k == g * m,
                    k + m <= n,
                    (g + 1) * m <= n,
                    output.len() == n,
                    prev.len() == n,
                    next == stage(prev, s as nat, exponent_sign_pos),
                    w_base == S::principal_root(m, exponent_sign_pos),
                    w == twiddle::<S>(m as nat, exponent_sign_pos, j as nat),
                    forall|p: int| 0 <= p < k + j ==> output@[p] == next[p],
                    forall|p: int| k + j <= p < k + half ==> output@[p] == prev[p],
                    forall|p: int| k + half <= p < k + half + j ==> output@[p] == next[p],
                    forall|p: int| k + half + j <= p < n ==> output@[p] == prev[p],
                decreases half - j,
            {
                proof {
                    lemma_stage_pair(prev, s as nat, exponent_sign_pos, g, j as nat, k + j);
                }
                let odd = w.times(output[k + j + half]);
                let even = output[k + j];
                output[k + j] = even.plus(odd);
                output[k + j + half] = even.minus(odd);
                w = w.times(w_base);
                j += 1;
            }
            k += m;
            proof {
                g = g + 1;
            }
        }
        assert(output@ =~= next);
        s += 1;
    }
    output
}

} // verus!
