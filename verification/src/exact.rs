//! Samples whose arithmetic is exact: sums and products obey the laws of a
//! commutative ring, and the principal roots of unity are roots of unity.
//!
//! For such samples the butterfly network computes the discrete Fourier sum.
//! Floating-point samples obey none of these laws exactly.

use crate::sample::{multiple, nth_power, Sample};
use vstd::arithmetic::power2::pow2;
use vstd::prelude::*;

verus! {

/// A sample type with exact arithmetic. An implementation proves each law.
pub trait ExactSample: Sample {
    /// The principal roots of unity obey the laws below for the lengths
    /// `2^0` to `2^max_levels()`.
    spec fn max_levels() -> nat;

    /// Those lengths are lengths of slices.
    proof fn lemma_lengths_fit()
        ensures
            pow2(Self::max_levels()) <= usize::MAX,
    ;

    /// `a + b == b + a`.
    proof fn lemma_sum_commutes(a: Self, b: Self)
        ensures
            a.sum(b) == b.sum(a),
    ;

    /// `(a + b) + c == a + (b + c)`.
    proof fn lemma_sum_associates(a: Self, b: Self, c: Self)
        ensures
            a.sum(b).sum(c) == a.sum(b.sum(c)),
    ;

    /// `a + 0 == a`.
    proof fn lemma_sum_zero(a: Self)
        ensures
            a.sum(Self::zero_value()) == a,
    ;

    /// `(a - b) + b == a`.
    proof fn lemma_difference(a: Self, b: Self)
        ensures
            a.difference(b).sum(b) == a,
    ;

    /// `a * b == b * a`.
    proof fn lemma_product_commutes(a: Self, b: Self)
        ensures
            a.product(b) == b.product(a),
    ;

    /// `(a * b) * c == a * (b * c)`.
    proof fn lemma_product_associates(a: Self, b: Self, c: Self)
        ensures
            a.product(b).product(c) == a.product(b.product(c)),
    ;

    /// `a * 1 == a`.
    proof fn lemma_product_one(a: Self)
        ensures
            a.product(Self::one_value()) == a,
    ;

    /// `a * (b + c) == a * b + a * c`.
    proof fn lemma_product_distributes(a: Self, b: Self, c: Self)
        ensures
            a.product(b.sum(c)) == a.product(b).sum(a.product(c)),
    ;

    /// The principal square root of unity is -1.
    proof fn lemma_second_root(exponent_sign_pos: bool)
        requires
            Self::max_levels() >= 1,
        ensures
            Self::principal_root(2, exponent_sign_pos).sum(Self::one_value())
                == Self::zero_value(),
    ;

    /// The square of the principal root of unity for a length is the
    /// principal root for half that length.
    proof fn lemma_root_squared(levels: nat, exponent_sign_pos: bool)
        requires
            1 <= levels <= Self::max_levels(),
        ensures
            Self::principal_root(pow2(levels) as usize, exponent_sign_pos).product(
                Self::principal_root(pow2(levels) as usize, exponent_sign_pos),
            ) == Self::principal_root(pow2((levels - 1) as nat) as usize, exponent_sign_pos),
    ;

    /// The principal roots of unity of the two directions are inverse to
    /// each other.
    proof fn lemma_roots_inverse(levels: nat)
        requires
            levels <= Self::max_levels(),
        ensures
            Self::principal_root(pow2(levels) as usize, true).product(
                Self::principal_root(pow2(levels) as usize, false),
            ) == Self::one_value(),
    ;

    /// Scaling by a length undoes multiplying by it: the real part of
    /// `2^levels` times the real sample `r`, over `2^levels`, is `r`.
    proof fn lemma_scaling(r: Self::Real, levels: nat)
        requires
            levels <= Self::max_levels(),
        ensures
            multiple(Self::lifted(r), pow2(levels)).scaled_real_part(pow2(levels) as usize)
                == r,
    ;
}

/// `0 + a == a`.
pub proof fn lemma_zero_sum<E: ExactSample>(a: E)
    ensures
        E::zero_value().sum(a) == a,
{
    E::lemma_sum_commutes(E::zero_value(), a);
    E::lemma_sum_zero(a);
}

/// `1 * a == a`.
pub proof fn lemma_one_product<E: ExactSample>(a: E)
    ensures
        E::one_value().product(a) == a,
{
    E::lemma_product_commutes(E::one_value(), a);
    E::lemma_product_one(a);
}

/// `(p + q) + (r + s) == (p + r) + (q + s)`.
pub proof fn lemma_sum_interchange<E: ExactSample>(p: E, q: E, r: E, s: E)
    ensures
        p.sum(q).sum(r.sum(s)) == p.sum(r).sum(q.sum(s)),
{
    E::lemma_sum_associates(p, q, r.sum(s));
    E::lemma_sum_associates(q, r, s);
    E::lemma_sum_commutes(q, r);
    E::lemma_sum_associates(r, q, s);
    E::lemma_sum_associates(p, r, q.sum(s));
}

/// `(p * q) * (r * s) == (p * r) * (q * s)`.
pub proof fn lemma_product_interchange<E: ExactSample>(p: E, q: E, r: E, s: E)
    ensures
        p.product(q).product(r.product(s)) == p.product(r).product(q.product(s)),
{
    E::lemma_product_associates(p, q, r.product(s));
    E::lemma_product_associates(q, r, s);
    E::lemma_product_commutes(q, r);
    E::lemma_product_associates(r, q, s);
    E::lemma_product_associates(p, r, q.product(s));
}

/// If `a + c == b + c` then `a == b`.
pub proof fn lemma_sum_cancels<E: ExactSample>(a: E, b: E, c: E)
    requires
        a.sum(c) == b.sum(c),
    ensures
        a == b,
{
    let n = E::zero_value().difference(c);
    E::lemma_difference(E::zero_value(), c);
    E::lemma_sum_commutes(n, c);
    E::lemma_sum_zero(a);
    E::lemma_sum_zero(b);
    E::lemma_sum_associates(a, c, n);
    E::lemma_sum_associates(b, c, n);
}

/// `a * 0 == 0` and `0 * a == 0`.
pub proof fn lemma_product_zero<E: ExactSample>(a: E)
    ensures
        a.product(E::zero_value()) == E::zero_value(),
        E::zero_value().product(a) == E::zero_value(),
{
    let z = E::zero_value();
    E::lemma_product_distributes(a, z, z);
    E::lemma_sum_zero(z);
    lemma_zero_sum(a.product(z));
    lemma_sum_cancels(a.product(z), z, a.product(z));
    E::lemma_product_commutes(a, z);
}

/// `(b + c) * a == b * a + c * a`.
pub proof fn lemma_product_distributes_right<E: ExactSample>(a: E, b: E, c: E)
    ensures
        b.sum(c).product(a) == b.product(a).sum(c.product(a)),
{
    E::lemma_product_commutes(b.sum(c), a);
    E::lemma_product_distributes(a, b, c);
    E::lemma_product_commutes(a, b);
    E::lemma_product_commutes(a, c);
}

/// If `d + b == 0` then `a - b == a + d`.
pub proof fn lemma_difference_is_sum<E: ExactSample>(a: E, b: E, d: E)
    requires
        d.sum(b) == E::zero_value(),
    ensures
        a.difference(b) == a.sum(d),
{
    E::lemma_difference(a, b);
    E::lemma_sum_associates(a, d, b);
    E::lemma_sum_zero(a);
    lemma_sum_cancels(a.difference(b), a.sum(d), b);
}

/// If `u` is -1, that is `u + 1 == 0`, then `u * b + b == 0`.
pub proof fn lemma_minus_one_negates<E: ExactSample>(u: E, b: E)
    requires
        u.sum(E::one_value()) == E::zero_value(),
    ensures
        u.product(b).sum(b) == E::zero_value(),
{
    lemma_product_distributes_right(b, u, E::one_value());
    lemma_one_product(b);
    lemma_product_zero(b);
}

/// If `u` is -1 then `u * u == 1`.
pub proof fn lemma_minus_one_squared<E: ExactSample>(u: E)
    requires
        u.sum(E::one_value()) == E::zero_value(),
    ensures
        u.product(u) == E::one_value(),
{
    lemma_minus_one_negates(u, u);
    E::lemma_sum_commutes(u, E::one_value());
    lemma_sum_cancels(u.product(u), E::one_value(), u);
}

/// If `u` is -1 then `a - c * b == a + (c * u) * b`: a butterfly's lower
/// output is the upper output for the twiddle factor half a turn on.
pub proof fn lemma_half_turn_subtracts<E: ExactSample>(a: E, b: E, c: E, u: E)
    requires
        u.sum(E::one_value()) == E::zero_value(),
    ensures
        a.difference(c.product(b)) == a.sum(c.product(u).product(b)),
{
    let d = c.product(u).product(b);
    E::lemma_product_associates(c, u, b);
    E::lemma_product_distributes(c, u.product(b), b);
    lemma_minus_one_negates(u, b);
    lemma_product_zero(c);
    lemma_difference_is_sum(a, c.product(b), d);
}

/// `w^(a + b) == w^a * w^b`.
pub proof fn lemma_power_adds<E: ExactSample>(w: E, a: nat, b: nat)
    ensures
        nth_power(w, a + b) == nth_power(w, a).product(nth_power(w, b)),
    decreases b,
{
    if b == 0 {
        E::lemma_product_one(nth_power(w, a));
    } else {
        lemma_power_adds(w, a, (b - 1) as nat);
        E::lemma_product_associates(nth_power(w, a), nth_power(w, (b - 1) as nat), w);
        assert(nth_power(w, a + b) == nth_power(w, (a + b - 1) as nat).product(w));
    }
}

/// `1^e == 1`.
pub proof fn lemma_power_of_one<E: ExactSample>(e: nat)
    ensures
        nth_power(E::one_value(), e) == E::one_value(),
    decreases e,
{
    if e > 0 {
        lemma_power_of_one::<E>((e - 1) as nat);
        E::lemma_product_one(E::one_value());
    }
}

/// `w^1 == w`.
pub proof fn lemma_first_power<E: ExactSample>(w: E)
    ensures
        nth_power(w, 1) == w,
{
    assert(nth_power(w, 1) == nth_power(w, 0).product(w));
    lemma_one_product(w);
}

/// `(w^a)^b == w^(a * b)`.
pub proof fn lemma_power_multiplies<E: ExactSample>(w: E, a: nat, b: nat)
    ensures
        nth_power(nth_power(w, a), b) == nth_power(w, a * b),
    decreases b,
{
    if b == 0 {
        assert(a * b == 0);
    } else {
        lemma_power_multiplies(w, a, (b - 1) as nat);
        lemma_power_adds(w, a * ((b - 1) as nat), a);
        assert(a * ((b - 1) as nat) + a == a * b) by (nonlinear_arith)
            requires
                b >= 1,
        ;
    }
}

/// `(a * b)^e == a^e * b^e`.
pub proof fn lemma_power_of_product<E: ExactSample>(a: E, b: E, e: nat)
    ensures
        nth_power(a.product(b), e) == nth_power(a, e).product(nth_power(b, e)),
    decreases e,
{
    if e == 0 {
        E::lemma_product_one(E::one_value());
    } else {
        lemma_power_of_product(a, b, (e - 1) as nat);
        lemma_product_interchange(
            nth_power(a, (e - 1) as nat),
            nth_power(b, (e - 1) as nat),
            a,
            b,
        );
    }
}

/// `(w * w)^e == w^(2 * e)`.
pub proof fn lemma_power_of_square<E: ExactSample>(w: E, e: nat)
    ensures
        nth_power(w.product(w), e) == nth_power(w, 2 * e),
{
    assert(nth_power(w, 2) == nth_power(w, 1).product(w));
    lemma_first_power(w);
    lemma_power_multiplies(w, 2, e);
}

/// If `w^p == 1` then `w^(p * t) == 1`.
pub proof fn lemma_power_of_period<E: ExactSample>(w: E, p: nat, t: nat)
    requires
        nth_power(w, p) == E::one_value(),
    ensures
        nth_power(w, p * t) == E::one_value(),
{
    lemma_power_multiplies(w, p, t);
    lemma_power_of_one::<E>(t);
}

/// Half a turn: the principal root of unity for the length `2^levels`, to
/// the power `2^(levels - 1)`, is -1.
pub proof fn lemma_root_half_turn<E: ExactSample>(levels: nat, exponent_sign_pos: bool)
    requires
        1 <= levels <= E::max_levels(),
    ensures
        nth_power(
            E::principal_root(pow2(levels) as usize, exponent_sign_pos),
            pow2((levels - 1) as nat),
        ).sum(E::one_value()) == E::zero_value(),
    decreases levels,
{
    let w = E::principal_root(pow2(levels) as usize, exponent_sign_pos);
    vstd::arithmetic::power2::lemma2_to64();
    if levels == 1 {
        lemma_first_power(w);
        E::lemma_second_root(exponent_sign_pos);
    } else {
        lemma_root_half_turn::<E>((levels - 1) as nat, exponent_sign_pos);
        E::lemma_root_squared(levels, exponent_sign_pos);
        lemma_power_of_square(w, pow2((levels - 2) as nat));
        vstd::arithmetic::power2::lemma_pow2_unfold((levels - 1) as nat);
    }
}

/// A full turn: the principal root of unity for the length `2^levels`, to
/// the power `2^levels`, is 1.
pub proof fn lemma_root_full_turn<E: ExactSample>(levels: nat, exponent_sign_pos: bool)
    requires
        levels <= E::max_levels(),
        E::max_levels() >= 1,
    ensures
        nth_power(E::principal_root(pow2(levels) as usize, exponent_sign_pos), pow2(levels))
            == E::one_value(),
{
    vstd::arithmetic::power2::lemma2_to64();
    if levels == 0 {
        let r = E::principal_root(2, exponent_sign_pos);
        E::lemma_root_squared(1, exponent_sign_pos);
        E::lemma_second_root(exponent_sign_pos);
        lemma_minus_one_squared(r);
        lemma_first_power(E::principal_root(1, exponent_sign_pos));
    } else {
        let w = E::principal_root(pow2(levels) as usize, exponent_sign_pos);
        let half = pow2((levels - 1) as nat);
        lemma_root_half_turn::<E>(levels, exponent_sign_pos);
        lemma_minus_one_squared(nth_power(w, half));
        lemma_power_adds(w, half, half);
        vstd::arithmetic::power2::lemma_pow2_unfold(levels);
    }
}

} // verus!
