//! The discrete Fourier sum, and the proof that the butterfly network
//! computes it on exact samples.

use crate::agreement::lemma_dit_dif_agree;
use crate::exact::{
    lemma_half_turn_subtracts, lemma_power_adds, lemma_power_of_period, lemma_power_of_square,
    lemma_root_full_turn, lemma_root_half_turn, ExactSample,
};
use crate::fft::forward_input;
use crate::padding::lemma_padded_len_least;
use crate::power::{
    ceil_log2, is_power_of_two, lemma_ceil_log2_of_pow2, lemma_power_of_two_halves,
    lemma_power_of_two_log,
};
use crate::sample::{nth_power, Sample};
use crate::sums::{lemma_total_by_parity, lemma_total_of_one, lemma_total_of_products, total};
use crate::transform::{dif, dit, evens, lemma_dit_len, odds};
use vstd::arithmetic::power2::{lemma2_to64, lemma_pow2_unfold};
use vstd::prelude::*;

verus! {

/// The terms of the Fourier sum for frequency `k`: `x[t] * w^(t * k)`.
pub open spec fn dft_terms<S: Sample>(x: Seq<S>, w: S, k: nat) -> Seq<S> {
    Seq::new(x.len(), |t: int| x[t].product(nth_power(w, (t * k) as nat)))
}

/// The Fourier sum for frequency `k`: the sum over `t` of `x[t] * w^(t * k)`.
pub open spec fn dft_sample<S: Sample>(x: Seq<S>, w: S, k: nat) -> S {
    total(dft_terms(x, w, k))
}

/// The discrete Fourier transform of `x`: for each frequency `k` below the
/// length `N` of `x`, the Fourier sum with the principal `N`-th root of unity
/// of the given direction.
pub open spec fn dft<S: Sample>(x: Seq<S>, exponent_sign_pos: bool) -> Seq<S> {
    Seq::new(
        x.len(),
        |k: int| dft_sample(x, S::principal_root(x.len() as usize, exponent_sign_pos), k as nat),
    )
}

/// The Fourier sum of a sequence of even length splits by index parity:
/// with `v = w * w`, it is the sum for the even-indexed samples and `v`,
/// plus `w^k` times the sum for the odd-indexed samples and `v`.
pub proof fn lemma_dft_sample_split<E: ExactSample>(x: Seq<E>, w: E, k: nat)
    requires
        x.len() % 2 == 0,
    ensures
        dft_sample(x, w, k) == dft_sample(evens(x), w.product(w), k).sum(
            nth_power(w, k).product(dft_sample(odds(x), w.product(w), k)),
        ),
{
    let v = w.product(w);
    let f = nth_power(w, k);
    let terms = dft_terms(x, w, k);
    let even_terms = dft_terms(evens(x), v, k);
    let odd_terms = dft_terms(odds(x), v, k);
    lemma_total_by_parity(terms);
    assert forall|t: int| 0 <= t < even_terms.len() implies evens(terms)[t] == even_terms[t] by {
        lemma_power_of_square(w, (t * k) as nat);
        assert((2 * t) * k == 2 * (t * k)) by (nonlinear_arith);
    }
    assert(evens(terms) =~= even_terms);
    assert forall|t: int| 0 <= t < odd_terms.len() implies odds(terms)[t] == f.product(
        odd_terms[t],
    ) by {
        let e = (t * k) as nat;
        let sample = x[2 * t + 1];
        lemma_power_of_square(w, e);
        lemma_power_adds(w, 2 * e, k);
        assert((2 * t + 1) * k == 2 * (t * k) + k) by (nonlinear_arith);
        E::lemma_product_associates(sample, nth_power(v, e), f);
        E::lemma_product_commutes(sample.product(nth_power(v, e)), f);
    }
    lemma_total_of_products(f, odd_terms, odds(terms));
}

/// The Fourier sum is periodic in the frequency: if `w^p == 1`, the sums for
/// `k + p` and for `k` are the same.
pub proof fn lemma_dft_sample_periodic<E: ExactSample>(x: Seq<E>, w: E, k: nat, p: nat)
    requires
        nth_power(w, p) == E::one_value(),
    ensures
        dft_sample(x, w, k + p) == dft_sample(x, w, k),
{
    assert forall|t: int| 0 <= t < x.len() implies dft_terms(x, w, k + p)[t] == dft_terms(
        x,
        w,
        k,
    )[t] by {
        lemma_power_adds(w, (t * k) as nat, (p * t) as nat);
        lemma_power_of_period(w, p, t as nat);
        assert(t * (k + p) == t * k + p * t) by (nonlinear_arith);
        E::lemma_product_one(nth_power(w, (t * k) as nat));
    }
    assert(dft_terms(x, w, k + p) =~= dft_terms(x, w, k));
}

/// On exact samples the recursive transform of a sequence of power-of-two
/// length is its discrete Fourier transform.
pub proof fn lemma_dit_is_dft<E: ExactSample>(x: Seq<E>, exponent_sign_pos: bool)
    requires
        is_power_of_two(x.len()),
        ceil_log2(x.len()) <= E::max_levels(),
    ensures
        dit(x, exponent_sign_pos) == dft(x, exponent_sign_pos),
    decreases x.len(),
{
    let n = x.len();
    let levels = ceil_log2(n);
    lemma2_to64();
    lemma_power_of_two_log(n);
    lemma_dit_len(x, exponent_sign_pos);
    E::lemma_lengths_fit();
    crate::power::lemma_pow2_monotonic(levels, E::max_levels());
    if n == 1 {
        let w = E::principal_root(1, exponent_sign_pos);
        assert(dft_terms(x, w, 0) =~= seq![x[0].product(nth_power(w, 0))]);
        E::lemma_product_one(x[0]);
        lemma_total_of_one(x[0]);
        assert(dit(x, exponent_sign_pos) =~= dft(x, exponent_sign_pos));
    } else {
        let half = n / 2;
        let w = E::principal_root(n as usize, exponent_sign_pos);
        let v = E::principal_root(half as usize, exponent_sign_pos);
        let e = dit(evens(x), exponent_sign_pos);
        let o = dit(odds(x), exponent_sign_pos);
        lemma_power_of_two_halves(n);
        lemma_pow2_unfold(levels);
        lemma_dit_is_dft(evens(x), exponent_sign_pos);
        lemma_dit_is_dft(odds(x), exponent_sign_pos);
        lemma_dit_len(evens(x), exponent_sign_pos);
        lemma_dit_len(odds(x), exponent_sign_pos);
        E::lemma_root_squared(levels, exponent_sign_pos);
        lemma_root_half_turn::<E>(levels, exponent_sign_pos);
        lemma_root_full_turn::<E>((levels - 1) as nat, exponent_sign_pos);
        assert(w.product(w) == v);
        assert forall|k: int| 0 <= k < n implies dit(x, exponent_sign_pos)[k] == dft(
            x,
            exponent_sign_pos,
        )[k] by {
            lemma_dft_sample_split(x, w, k as nat);
            if k < half {
                assert(e[k] == dft_sample(evens(x), v, k as nat));
                assert(o[k] == dft_sample(odds(x), v, k as nat));
            } else {
                let j = (k - half) as nat;
                assert(e[j as int] == dft_sample(evens(x), v, j));
                assert(o[j as int] == dft_sample(odds(x), v, j));
                lemma_dft_sample_periodic(evens(x), v, j, half);
                lemma_dft_sample_periodic(odds(x), v, j, half);
                lemma_power_adds(w, j, half);
                lemma_half_turn_subtracts(e[j as int], o[j as int], nth_power(w, j), nth_power(w, half));
            }
        }
        assert(dit(x, exponent_sign_pos) =~= dft(x, exponent_sign_pos));
    }
}

/// On exact samples the iterative transform of a sequence of power-of-two
/// length is its discrete Fourier transform.
pub proof fn lemma_dif_is_dft<E: ExactSample>(x: Seq<E>, exponent_sign_pos: bool)
    requires
        is_power_of_two(x.len()),
        ceil_log2(x.len()) <= E::max_levels(),
    ensures
        dif(x, exponent_sign_pos) == dft(x, exponent_sign_pos),
{
    lemma_dit_dif_agree(x, exponent_sign_pos);
    lemma_dit_is_dft(x, exponent_sign_pos);
}

/// On exact samples the forward transform of real samples is the discrete
/// Fourier transform of the padded, lifted input.
pub proof fn lemma_forward_is_dft<E: ExactSample>(x: Seq<E::Real>)
    requires
        ceil_log2(x.len()) <= E::max_levels(),
    ensures
        dit(forward_input::<E>(x), false) == dft(forward_input::<E>(x), false),
        dif(forward_input::<E>(x), false) == dft(forward_input::<E>(x), false),
{
    lemma_padded_len_least(x.len(), 0);
    lemma_ceil_log2_of_pow2(ceil_log2(x.len()));
    lemma_dif_is_dft(forward_input::<E>(x), false);
    lemma_dit_is_dft(forward_input::<E>(x), false);
}

} // verus!
