//! On exact samples the inverse transform undoes the forward transform.
//!
//! The transform of the transform in the other direction is the Fourier sum
//! of Fourier sums. Summed in the other order, it comes down to sums of the
//! powers of one root of unity, which vanish unless that root is 1.

use crate::agreement::lemma_dit_dif_agree;
use crate::dft::{dft, dft_sample, dft_terms, lemma_dit_is_dft};
use crate::exact::{
    lemma_minus_one_negates, lemma_one_product, lemma_power_adds, lemma_power_multiplies,
    lemma_power_of_one, lemma_power_of_product, lemma_power_of_square, lemma_product_zero,
    lemma_root_full_turn, lemma_root_half_turn, ExactSample,
};
use crate::fft::{forward_input, inverse_input, normalized};
use crate::padding::{lemma_padded_len_least, lemma_padded_len_of_power, padded, padded_len};
use crate::power::{ceil_log2, is_power_of_two, lemma_pow2_monotonic, lemma_power_of_two_log};
use crate::sample::{multiple, nth_power, Sample};
use crate::sums::{
    column, column_sums, lemma_multiple_of_one, lemma_total_exchange, lemma_total_of_concat,
    lemma_total_of_copies, lemma_total_of_products, lemma_total_of_single, row_sums, total,
};
use crate::transform::{dif, dit, lemma_dit_len};
use vstd::arithmetic::power2::{lemma2_to64, lemma_pow2_unfold, pow2};
use vstd::prelude::*;

verus! {

/// The powers `c^0` to `c^(n - 1)`.
pub open spec fn geometric<S: Sample>(c: S, n: nat) -> Seq<S> {
    Seq::new(n, |k: int| nth_power(c, k as nat))
}

/// The powers from `c^h` to `c^(2 * h - 1)` are `c^h` times those from `c^0`
/// to `c^(h - 1)`, so the sum of the first `2 * h` powers is the sum of the
/// first `h`, plus `c^h` times that sum.
pub proof fn lemma_geometric_doubles<E: ExactSample>(c: E, h: nat)
    ensures
        total(geometric(c, 2 * h)) == total(geometric(c, h)).sum(
            nth_power(c, h).product(total(geometric(c, h))),
        ),
{
    let first = geometric(c, h);
    let second = Seq::new(h, |k: int| nth_power(c, (k + h) as nat));
    let u = nth_power(c, h);
    assert(geometric(c, 2 * h) =~= first + second);
    lemma_total_of_concat(first, second);
    assert forall|k: int| 0 <= k < h implies second[k] == u.product(first[k]) by {
        lemma_power_adds(c, k as nat, h);
        E::lemma_product_commutes(nth_power(c, k as nat), u);
    }
    lemma_total_of_products(u, first, second);
}

/// An odd power of -1 is -1.
pub proof fn lemma_odd_power_of_minus_one<E: ExactSample>(u: E, d: nat)
    requires
        u.sum(E::one_value()) == E::zero_value(),
        d % 2 == 1,
    ensures
        nth_power(u, d) == u,
{
    let q = d / 2;
    crate::exact::lemma_minus_one_squared(u);
    lemma_power_of_square(u, q);
    lemma_power_of_one::<E>(q);
    assert(nth_power(u, d) == nth_power(u, (d - 1) as nat).product(u));
    lemma_one_product(u);
}

/// The powers of a root of unity other than 1 sum to 0 over a full turn:
/// for `0 < d < 2^levels` and the principal root `w` for the length
/// `2^levels`, the sum of the first `2^levels` powers of `w^d` is 0.
pub proof fn lemma_roots_sum_to_zero<E: ExactSample>(levels: nat, exponent_sign_pos: bool, d: nat)
    requires
        levels <= E::max_levels(),
        0 < d < pow2(levels),
    ensures
        total(
            geometric(
                nth_power(E::principal_root(pow2(levels) as usize, exponent_sign_pos), d),
                pow2(levels),
            ),
        ) == E::zero_value(),
    decreases levels,
{
    lemma2_to64();
    assert(levels >= 1);
    let w = E::principal_root(pow2(levels) as usize, exponent_sign_pos);
    let c = nth_power(w, d);
    let h = pow2((levels - 1) as nat);
    lemma_pow2_unfold(levels);
    lemma_geometric_doubles(c, h);
    lemma_power_multiplies(w, d, h);
    lemma_power_multiplies(w, h, d);
    assert(d * h == h * d) by (nonlinear_arith);
    if d % 2 == 1 {
        // Half a turn on, every power comes back with the opposite sign.
        lemma_root_half_turn::<E>(levels, exponent_sign_pos);
        lemma_odd_power_of_minus_one(nth_power(w, h), d);
        lemma_minus_one_negates(nth_power(c, h), total(geometric(c, h)));
        E::lemma_sum_commutes(
            total(geometric(c, h)),
            nth_power(c, h).product(total(geometric(c, h))),
        );
    } else {
        // `w^d` is a power of the root for half the length, and the powers
        // repeat after half a turn.
        let half_d = d / 2;
        let v = E::principal_root(h as usize, exponent_sign_pos);
        E::lemma_root_squared(levels, exponent_sign_pos);
        lemma_power_of_square(w, half_d);
        lemma_roots_sum_to_zero::<E>((levels - 1) as nat, exponent_sign_pos, half_d);
        lemma_root_full_turn::<E>((levels - 1) as nat, exponent_sign_pos);
        lemma_power_multiplies(v, half_d, h);
        lemma_power_multiplies(v, h, half_d);
        assert(half_d * h == h * half_d) by (nonlinear_arith);
        lemma_power_of_one::<E>(half_d);
        lemma_product_zero(nth_power(c, h));
        E::lemma_sum_zero(E::zero_value());
    }
}

/// The sum of the first `n` powers of 1 is `n` times 1.
pub proof fn lemma_ones_sum<E: ExactSample>(n: nat)
    ensures
        total(geometric(E::one_value(), n)) == multiple(E::one_value(), n),
{
    assert forall|k: int| 0 <= k < n implies geometric(E::one_value(), n)[k]
        == E::one_value() by {
        lemma_power_of_one::<E>(k as nat);
    }
    assert(geometric(E::one_value(), n) =~= Seq::new(n, |i: int| E::one_value()));
    lemma_total_of_copies(E::one_value(), n);
}

/// For two roots `w` and `v` with `w * v == 1`: `w^j * v^m` is `v^(m - j)`
/// where `j <= m`, and `w^(j - m)` where `m <= j`.
pub proof fn lemma_inverse_powers<E: ExactSample>(w: E, v: E, j: nat, m: nat)
    requires
        w.product(v) == E::one_value(),
    ensures
        j <= m ==> nth_power(w, j).product(nth_power(v, m)) == nth_power(v, (m - j) as nat),
        m <= j ==> nth_power(w, j).product(nth_power(v, m)) == nth_power(w, (j - m) as nat),
{
    if j <= m {
        let rest = nth_power(v, (m - j) as nat);
        lemma_power_adds(v, j, (m - j) as nat);
        E::lemma_product_associates(nth_power(w, j), nth_power(v, j), rest);
        lemma_power_of_product(w, v, j);
        lemma_power_of_one::<E>(j);
        lemma_one_product(rest);
    }
    if m <= j {
        let rest = nth_power(w, (j - m) as nat);
        lemma_power_adds(w, (j - m) as nat, m);
        E::lemma_product_associates(rest, nth_power(w, m), nth_power(v, m));
        lemma_power_of_product(w, v, m);
        lemma_power_of_one::<E>(m);
        E::lemma_product_one(rest);
    }
}

/// The terms of the Fourier sum for sample `m` of the transform of the
/// transform of `x`: row `k` holds the terms that sample `k` of the first
/// transform brings, `x[j] * (w^(j * k) * v^(k * m))` for each `j`.
pub open spec fn term_table<S: Sample>(x: Seq<S>, w: S, v: S, m: nat) -> Seq<Seq<S>> {
    Seq::new(
        x.len(),
        |k: int|
            Seq::new(
                x.len(),
                |j: int|
                    x[j].product(
                        nth_power(w, (j * k) as nat).product(nth_power(v, (k * m) as nat)),
                    ),
            ),
    )
}

/// Row `k` of the table of terms sums to sample `k` of the Fourier transform
/// of `x`, times `v^(k * m)`.
pub proof fn lemma_row_sum<E: ExactSample>(x: Seq<E>, w: E, v: E, m: nat, k: nat)
    requires
        k < x.len(),
    ensures
        total(term_table(x, w, v, m)[k as int]) == dft_sample(x, w, k).product(
            nth_power(v, (k * m) as nat),
        ),
{
    let factor = nth_power(v, (k * m) as nat);
    let inner = dft_terms(x, w, k);
    let row = term_table(x, w, v, m)[k as int];
    assert forall|j: int| 0 <= j < x.len() implies row[j] == factor.product(inner[j]) by {
        E::lemma_product_associates(x[j], nth_power(w, (j * k) as nat), factor);
        E::lemma_product_commutes(factor, inner[j]);
    }
    lemma_total_of_products(factor, inner, row);
    E::lemma_product_commutes(factor, total(inner));
}

/// Column `j` of the table of terms sums to `x[j]` times the sum of the
/// first `x.len()` powers of `w^j * v^m`.
pub proof fn lemma_column_sum<E: ExactSample>(x: Seq<E>, w: E, v: E, m: nat, j: nat)
    requires
        j < x.len(),
    ensures
        total(column(term_table(x, w, v, m), j as int)) == x[j as int].product(
            total(geometric(nth_power(w, j).product(nth_power(v, m)), x.len())),
        ),
{
    let n = x.len();
    let c = nth_power(w, j).product(nth_power(v, m));
    let terms = column(term_table(x, w, v, m), j as int);
    assert forall|k: int| 0 <= k < n implies terms[k] == x[j as int].product(
        geometric(c, n)[k],
    ) by {
        lemma_power_multiplies(w, j, k as nat);
        lemma_power_multiplies(v, m, k as nat);
        lemma_power_of_product(nth_power(w, j), nth_power(v, m), k as nat);
        assert(k * m == m * k) by (nonlinear_arith);
    }
    lemma_total_of_products(x[j as int], geometric(c, n), terms);
}

/// Sample `m` of the Fourier transform, in one direction, of the Fourier
/// transform of `x` in the other direction is `x.len()` times `x[m]`.
pub proof fn lemma_dft_of_dft_sample<E: ExactSample>(x: Seq<E>, exponent_sign_pos: bool, m: nat)
    requires
        is_power_of_two(x.len()),
        ceil_log2(x.len()) <= E::max_levels(),
        m < x.len(),
    ensures
        dft(dft(x, exponent_sign_pos), !exponent_sign_pos)[m as int] == multiple(
            x[m as int],
            x.len(),
        ),
{
    let n = x.len();
    let levels = ceil_log2(n);
    let w = E::principal_root(n as usize, exponent_sign_pos);
    let v = E::principal_root(n as usize, !exponent_sign_pos);
    let spectrum = dft(x, exponent_sign_pos);
    let table = term_table(x, w, v, m);
    lemma_power_of_two_log(n);
    E::lemma_lengths_fit();
    lemma_pow2_monotonic(levels, E::max_levels());
    E::lemma_roots_inverse(levels);
    E::lemma_product_commutes(w, v);
    assert(w.product(v) == E::one_value());
    // Row by row the table sums to the sample.
    assert forall|k: int| 0 <= k < n implies dft_terms(spectrum, v, m)[k] == row_sums(
        table,
    )[k] by {
        lemma_row_sum(x, w, v, m, k as nat);
        assert(m * k == k * m) by (nonlinear_arith);
    }
    assert(dft_terms(spectrum, v, m) =~= row_sums(table));
    lemma_total_exchange(table, n);
    // Column by column only column `m` is left.
    let sums = column_sums(table, n);
    assert forall|j: int| 0 <= j < n && j != m implies sums[j] == E::zero_value() by {
        lemma_column_sum(x, w, v, m, j as nat);
        lemma_inverse_powers(w, v, j as nat, m);
        if j < m {
            lemma_roots_sum_to_zero::<E>(levels, !exponent_sign_pos, (m - j) as nat);
        } else {
            lemma_roots_sum_to_zero::<E>(levels, exponent_sign_pos, (j - m) as nat);
        }
        lemma_product_zero(x[j]);
    }
    lemma_total_of_single(sums, m as int);
    lemma_column_sum(x, w, v, m, m);
    lemma_inverse_powers(w, v, m, m);
    lemma_ones_sum::<E>(n);
    lemma_multiple_of_one(x[m as int], n);
}

/// On exact samples, transforming a sequence of power-of-two length in one
/// direction and the result in the other gives each sample times the length.
pub proof fn lemma_dft_of_dft<E: ExactSample>(x: Seq<E>, exponent_sign_pos: bool)
    requires
        is_power_of_two(x.len()),
        ceil_log2(x.len()) <= E::max_levels(),
    ensures
        dit(dit(x, exponent_sign_pos), !exponent_sign_pos) == Seq::new(
            x.len(),
            |m: int| multiple(x[m], x.len()),
        ),
{
    let spectrum = dit(x, exponent_sign_pos);
    lemma_dit_is_dft(x, exponent_sign_pos);
    lemma_dit_len(x, exponent_sign_pos);
    lemma_dit_is_dft(spectrum, !exponent_sign_pos);
    assert forall|m: int| 0 <= m < x.len() implies dft(spectrum, !exponent_sign_pos)[m]
        == multiple(x[m], x.len()) by {
        lemma_dft_of_dft_sample(x, exponent_sign_pos, m as nat);
    }
    assert(dft(spectrum, !exponent_sign_pos) =~= Seq::new(
        x.len(),
        |m: int| multiple(x[m], x.len()),
    ));
}

/// On exact samples the inverse transform of the forward transform of real
/// samples is the padded input: the input itself where its length is a
/// power of two. That holds of the recursive and of the iterative transform.
pub proof fn lemma_inverse_of_forward<E: ExactSample>(x: Seq<E::Real>)
    requires
        ceil_log2(x.len()) <= E::max_levels(),
    ensures
        normalized(dit(inverse_input(dit(forward_input::<E>(x), false)), true)) == padded(
            x,
            E::real_zero_value(),
        ),
        normalized(dif(inverse_input(dif(forward_input::<E>(x), false)), true)) == padded(
            x,
            E::real_zero_value(),
        ),
        is_power_of_two(x.len()) ==> padded(x, E::real_zero_value()) == x,
{
    let reals = padded(x, E::real_zero_value());
    let lifted = forward_input::<E>(x);
    let n = padded_len(x.len());
    let levels = ceil_log2(x.len());
    let spectrum = dit(lifted, false);
    lemma_padded_len_least(x.len(), 0);
    lemma_padded_len_of_power(n);
    crate::power::lemma_ceil_log2_of_pow2(levels);
    lemma_dit_len(lifted, false);
    assert(inverse_input(spectrum) =~= spectrum);
    lemma_dft_of_dft(lifted, false);
    E::lemma_lengths_fit();
    lemma_pow2_monotonic(levels, E::max_levels());
    assert forall|m: int| 0 <= m < n implies normalized(dit(spectrum, true))[m] == reals[m] by {
        E::lemma_scaling(reals[m], levels);
    }
    assert(normalized(dit(spectrum, true)) =~= reals);
    lemma_dit_dif_agree(lifted, false);
    lemma_dit_dif_agree(spectrum, true);
    if is_power_of_two(x.len()) {
        lemma_padded_len_of_power(x.len());
        assert(reals =~= x);
    }
}

} // verus!
