//! Residues modulo the Fermat prime 65537: samples whose arithmetic is exact.
//!
//! With these samples the butterflies compute a number-theoretic transform.
//! Powers of 3, which generates the multiplicative group, take the place of
//! the complex roots of unity, so transforms of up to 65536 samples are
//! meaningful. Real and complex samples are the same here.

use crate::exact::ExactSample;
use crate::sample::{multiple, Sample};
use vstd::arithmetic::div_mod::{
    lemma_add_mod_noop, lemma_fundamental_div_mod, lemma_fundamental_div_mod_converse,
    lemma_mul_mod_noop_general,
};
use vstd::arithmetic::mul::{lemma_mul_is_associative, lemma_mul_is_distributive_add};
use vstd::arithmetic::power::{
    lemma_pow0, lemma_pow1, lemma_pow_adds, lemma_pow_mod_noop, lemma_pow_multiplies,
    lemma_square_is_pow2, pow,
};
use vstd::arithmetic::power2::{lemma2_to64, lemma_pow2_adds, lemma_pow2_pos, lemma_pow2_unfold, pow2};
use vstd::prelude::*;

verus! {

/// The modulus: `2^16 + 1`, a prime.
pub const MODULUS: u32 = 65537;

/// A generator of the multiplicative group modulo [`MODULUS`].
pub const GENERATOR: u32 = 3;

/// The order of the multiplicative group: `MODULUS - 1`.
pub const GROUP_ORDER: u32 = 65536;

/// An integer modulo [`MODULUS`]. Every value of the type is one residue, and
/// every residue one value.
#[derive(Clone, Copy, Debug, PartialEq, Eq, Structural)]
pub enum Residue {
    /// A residue from 0 to 65535.
    Small(u16),
    /// The residue 65536, which is -1.
    MinusOne,
}

impl View for Residue {
    type V = int;

    /// The least non-negative representative.
    open spec fn view(&self) -> int {
        match *self {
            Residue::Small(v) => v as int,
            Residue::MinusOne => 65536,
        }
    }
}

/// The exponent of [`GENERATOR`] that gives the principal `n`-th root of
/// unity in the given direction. For `n` that divides [`GROUP_ORDER`] the two
/// directions give inverse roots.
pub open spec fn root_exponent(n: usize, exponent_sign_pos: bool) -> nat {
    if n == 0 {
        0
    } else if exponent_sign_pos {
        (GROUP_ORDER as nat / n as nat) % GROUP_ORDER as nat
    } else {
        ((GROUP_ORDER as nat - GROUP_ORDER as nat / n as nat) as nat) % GROUP_ORDER as nat
    }
}

impl Residue {
    /// The residue of the integer `v`.
    pub open spec fn of(v: int) -> Residue {
        if v % MODULUS as int == 65536 {
            Residue::MinusOne
        } else {
            Residue::Small((v % MODULUS as int) as u16)
        }
    }

    /// The representative of the residue of `v` is `v` modulo [`MODULUS`],
    /// and a residue is the residue of its representative.
    pub proof fn lemma_representative(v: int, r: Residue)
        ensures
            Residue::of(v)@ == v % MODULUS as int,
            0 <= r@ < MODULUS,
            Residue::of(r@) == r,
    {
    }

    /// The residue of `v`.
    pub fn new(v: u32) -> (r: Residue)
        ensures
            r == Residue::of(v as int),
    {
        let reduced = v % MODULUS;
        if reduced == GROUP_ORDER {
            Residue::MinusOne
        } else {
            Residue::Small(reduced as u16)
        }
    }

    /// The least non-negative representative.
    pub fn value(self) -> (v: u32)
        ensures
            v == self@,
            v < MODULUS,
    {
        match self {
            Residue::Small(v) => v as u32,
            Residue::MinusOne => GROUP_ORDER,
        }
    }

    /// `self` to the power `exponent`, by repeated squaring.
    pub fn power(self, exponent: u32) -> (r: Residue)
        ensures
            r == Residue::of(pow(self@, exponent as nat)),
    {
        let mut result = Residue::new(1);
        let mut base = self;
        let mut e = exponent;
        proof {
            assert(1 * pow(self@, exponent as nat) == pow(self@, exponent as nat));
        }
        while e > 0
            invariant
                (result@ * pow(base@, e as nat)) % MODULUS as int == pow(
                    self@,
                    exponent as nat,
                ) % MODULUS as int,
            decreases e,
        {
            proof {
                lemma_power_step(result@, base@, e as nat);
            }
            if e % 2 == 1 {
                result = result.times(base);
            }
            base = base.times(base);
            e = e / 2;
        }
        proof {
            lemma_pow0(base@);
        }
        result
    }

    /// The multiplicative inverse of `self`, which is its power
    /// `MODULUS - 2`; the residue 0 where `self` is 0.
    pub fn inverse(self) -> (r: Residue)
        ensures
            r == Residue::of(pow(self@, (MODULUS - 2) as nat)),
    {
        self.power(MODULUS - 2)
    }
}

/// One round of repeated squaring keeps `r * b^e` modulo [`MODULUS`]: the
/// base is squared, the exponent halved, and an odd exponent moves one factor
/// `b` into `r`.
pub proof fn lemma_power_step(r: int, b: int, e: nat)
    requires
        e > 0,
    ensures
        ((if e % 2 == 1 {
            (r * b) % MODULUS as int
        } else {
            r
        }) * pow((b * b) % MODULUS as int, e / 2)) % MODULUS as int == (r * pow(b, e))
            % MODULUS as int,
{
    let m = MODULUS as int;
    let q = e / 2;
    let squares = pow(b * b, q);
    lemma_fundamental_div_mod(e as int, 2);
    lemma_square_is_pow2(b);
    lemma_pow_multiplies(b, 2, q);
    lemma_pow_mod_noop(b * b, q, m);
    if e % 2 == 1 {
        lemma_pow_adds(b, 2 * q, 1);
        lemma_pow1(b);
        assert(r * pow(b, e) == (r * b) * squares) by (nonlinear_arith)
            requires
                pow(b, e) == squares * b,
        ;
        lemma_mul_mod_noop_general(r * b, squares, m);
        lemma_mul_mod_noop_general((r * b) % m, pow((b * b) % m, q), m);
    } else {
        assert(2 * q == e);
        lemma_mul_mod_noop_general(r, squares, m);
        lemma_mul_mod_noop_general(r, pow((b * b) % m, q), m);
    }
}

impl Sample for Residue {
    type Real = Residue;

    open spec fn zero_value() -> Self {
        Residue::of(0)
    }

    open spec fn one_value() -> Self {
        Residue::of(1)
    }

    open spec fn sum(self, other: Self) -> Self {
        Residue::of(self@ + other@)
    }

    open spec fn difference(self, other: Self) -> Self {
        Residue::of(self@ - other@)
    }

    open spec fn product(self, other: Self) -> Self {
        Residue::of(self@ * other@)
    }

    open spec fn principal_root(n: usize, exponent_sign_pos: bool) -> Self {
        Residue::of(pow(GENERATOR as int, root_exponent(n, exponent_sign_pos)))
    }

    open spec fn lifted(x: Residue) -> Self {
        x
    }

    open spec fn real_zero_value() -> Residue {
        Residue::of(0)
    }

    open spec fn scaled_real_part(self, n: usize) -> Residue {
        Residue::of(
            self@ * Residue::of(pow((n % MODULUS as usize) as int, (MODULUS - 2) as nat))@,
        )
    }

    fn zero() -> Self {
        Residue::new(0)
    }

    fn one() -> Self {
        Residue::new(1)
    }

    fn plus(self, other: Self) -> Self {
        Residue::new(self.value() + other.value())
    }

    fn minus(self, other: Self) -> Self {
        proof {
            vstd::arithmetic::div_mod::lemma_mod_add_multiples_vanish(
                self@ - other@,
                MODULUS as int,
            );
        }
        Residue::new(self.value() + MODULUS - other.value())
    }

    fn times(self, other: Self) -> Self {
        proof {
            assert(0 <= self@ * other@ <= 65536 * 65536) by (nonlinear_arith)
                requires
                    0 <= self@ <= 65536,
                    0 <= other@ <= 65536,
            ;
        }
        let wide = (self.value() as u64 * other.value() as u64) % (MODULUS as u64);
        Residue::new(wide as u32)
    }

    fn root_of_unity(n: usize, exponent_sign_pos: bool) -> Self {
        let order = GROUP_ORDER as usize;
        let step = order / n;
        let exponent = if exponent_sign_pos {
            step % order
        } else {
            (order - step) % order
        };
        Residue::new(GENERATOR).power(exponent as u32)
    }

    fn from_real(x: Residue) -> Self {
        x
    }

    fn real_zero() -> Residue {
        Residue::new(0)
    }

    fn real_part_over(self, n: usize) -> Residue {
        let divisor = Residue::new((n % MODULUS as usize) as u32);
        self.times(divisor.inverse())
    }
}

/// Squaring a power doubles the exponent: if `b^e` is `c` modulo
/// [`MODULUS`], then `b^(2 * e)` is `c * c`.
pub proof fn lemma_square_of_power(b: int, e: nat, c: int)
    requires
        pow(b, e) % MODULUS as int == c,
    ensures
        pow(b, 2 * e) % MODULUS as int == (c * c) % MODULUS as int,
{
    lemma_pow_adds(b, e, e);
    lemma_mul_mod_noop_general(pow(b, e), pow(b, e), MODULUS as int);
}

/// The generator to the power `2^15`, half the group order, is -1, and to
/// the group order it is 1.
pub proof fn lemma_generator_order()
    ensures
        pow(GENERATOR as int, 32768) % MODULUS as int == 65536,
        pow(GENERATOR as int, 65536) % MODULUS as int == 1,
{
    let g = GENERATOR as int;
    lemma_pow1(g);
    lemma_square_of_power(g, 1, 3);
    lemma_square_of_power(g, 2, 9);
    lemma_square_of_power(g, 4, 81);
    lemma_square_of_power(g, 8, 6561);
    lemma_square_of_power(g, 16, 54449);
    lemma_square_of_power(g, 32, 61869);
    lemma_square_of_power(g, 64, 19139);
    lemma_square_of_power(g, 128, 15028);
    lemma_square_of_power(g, 256, 282);
    lemma_square_of_power(g, 512, 13987);
    lemma_square_of_power(g, 1024, 8224);
    lemma_square_of_power(g, 2048, 65529);
    lemma_square_of_power(g, 4096, 64);
    lemma_square_of_power(g, 8192, 4096);
    lemma_square_of_power(g, 16384, 65281);
    lemma_square_of_power(g, 32768, 65536);
}

/// Exponents of the generator count modulo the group order.
pub proof fn lemma_generator_exponent(e: nat)
    ensures
        pow(GENERATOR as int, e) % MODULUS as int == pow(
            GENERATOR as int,
            e % GROUP_ORDER as nat,
        ) % MODULUS as int,
{
    let g = GENERATOR as int;
    let q = e / GROUP_ORDER as nat;
    let r = e % GROUP_ORDER as nat;
    lemma_fundamental_div_mod(e as int, GROUP_ORDER as int);
    lemma_generator_order();
    lemma_pow_adds(g, 65536 * q, r);
    lemma_pow_multiplies(g, 65536, q);
    lemma_pow_mod_noop(pow(g, 65536), q, MODULUS as int);
    vstd::arithmetic::power::lemma1_pow(q);
    lemma_mul_mod_noop_general(pow(g, 65536 * q), pow(g, r), MODULUS as int);
}

/// For the lengths `2^0` to `2^16` the root exponent is `2^(16 - levels)` in
/// the positive direction and its complement to the group order in the
/// negative one, both taken modulo the group order.
pub proof fn lemma_root_exponent(levels: nat, exponent_sign_pos: bool)
    requires
        levels <= 16,
    ensures
        1 <= pow2(levels) <= 65536,
        1 <= pow2((16 - levels) as nat) <= 65536,
        root_exponent(pow2(levels) as usize, exponent_sign_pos) == if exponent_sign_pos {
            pow2((16 - levels) as nat) % 65536
        } else {
            ((65536 - pow2((16 - levels) as nat)) as nat) % 65536
        },
{
    lemma2_to64();
    lemma_pow2_adds((16 - levels) as nat, levels);
    lemma_pow2_pos(levels);
    lemma_pow2_pos((16 - levels) as nat);
    crate::power::lemma_pow2_monotonic(levels, 16);
    crate::power::lemma_pow2_monotonic((16 - levels) as nat, 16);
    lemma_fundamental_div_mod_converse(
        65536,
        pow2(levels) as int,
        pow2((16 - levels) as nat) as int,
        0,
    );
}

/// 2 to the group order is 1.
pub proof fn lemma_two_order()
    ensures
        pow(2, 65536) % MODULUS as int == 1,
{
    lemma_pow1(2);
    lemma_square_of_power(2, 1, 2);
    lemma_square_of_power(2, 2, 4);
    lemma_square_of_power(2, 4, 16);
    lemma_square_of_power(2, 8, 256);
    lemma_square_of_power(2, 16, 65536);
    lemma_square_of_power(2, 32, 1);
    lemma_square_of_power(2, 64, 1);
    lemma_square_of_power(2, 128, 1);
    lemma_square_of_power(2, 256, 1);
    lemma_square_of_power(2, 512, 1);
    lemma_square_of_power(2, 1024, 1);
    lemma_square_of_power(2, 2048, 1);
    lemma_square_of_power(2, 4096, 1);
    lemma_square_of_power(2, 8192, 1);
    lemma_square_of_power(2, 16384, 1);
    lemma_square_of_power(2, 32768, 1);
}

/// A power of two, to the group order, is 1: it has an inverse, which is its
/// power `MODULUS - 2`.
pub proof fn lemma_power_of_two_order(levels: nat)
    ensures
        pow(pow2(levels) as int, 65536) % MODULUS as int == 1,
        (pow2(levels) * pow(pow2(levels) as int, 65535)) % MODULUS as int == 1,
{
    let n = pow2(levels) as int;
    vstd::arithmetic::power2::lemma_pow2(levels);
    lemma_pow_multiplies(2, levels, 65536);
    lemma_pow_multiplies(2, 65536, levels);
    assert(levels * 65536 == 65536 * levels);
    lemma_two_order();
    lemma_pow_mod_noop(pow(2, 65536), levels, MODULUS as int);
    vstd::arithmetic::power::lemma1_pow(levels);
    lemma_pow_adds(n, 65535, 1);
    lemma_pow1(n);
    assert(n * pow(n, 65535) == pow(n, 65535) * n) by (nonlinear_arith);
}

/// `n` times a residue is the residue of `n` times its representative.
pub proof fn lemma_multiple_of_residue(a: Residue, n: nat)
    ensures
        multiple(a, n) == Residue::of(n * a@),
    decreases n,
{
    if n == 0 {
        assert(0 * a@ == 0);
    } else {
        lemma_multiple_of_residue(a, (n - 1) as nat);
        lemma_add_mod_noop((n - 1) * a@, a@, MODULUS as int);
        assert((n - 1) * a@ + a@ == n * a@) by (nonlinear_arith);
    }
}

impl ExactSample for Residue {
    open spec fn max_levels() -> nat {
        16
    }

    proof fn lemma_lengths_fit() {
        lemma2_to64();
    }

    proof fn lemma_sum_commutes(a: Self, b: Self) {
    }

    proof fn lemma_sum_associates(a: Self, b: Self, c: Self) {
        lemma_add_mod_noop(a@ + b@, c@, MODULUS as int);
        lemma_add_mod_noop(a@, b@ + c@, MODULUS as int);
    }

    proof fn lemma_sum_zero(a: Self) {
    }

    proof fn lemma_difference(a: Self, b: Self) {
        lemma_add_mod_noop(a@ - b@, b@, MODULUS as int);
    }

    proof fn lemma_product_commutes(a: Self, b: Self) {
        assert(a@ * b@ == b@ * a@) by (nonlinear_arith);
    }

    proof fn lemma_product_associates(a: Self, b: Self, c: Self) {
        lemma_mul_mod_noop_general(a@ * b@, c@, MODULUS as int);
        lemma_mul_mod_noop_general(a@, b@ * c@, MODULUS as int);
        lemma_mul_is_associative(a@, b@, c@);
    }

    proof fn lemma_product_one(a: Self) {
        assert(a@ * 1 == a@);
    }

    proof fn lemma_product_distributes(a: Self, b: Self, c: Self) {
        lemma_mul_mod_noop_general(a@, b@ + c@, MODULUS as int);
        lemma_mul_is_distributive_add(a@, b@, c@);
        lemma_add_mod_noop(a@ * b@, a@ * c@, MODULUS as int);
    }

    proof fn lemma_second_root(exponent_sign_pos: bool) {
        lemma_generator_order();
    }

    proof fn lemma_root_squared(levels: nat, exponent_sign_pos: bool) {
        let g = GENERATOR as int;
        let e = root_exponent(pow2(levels) as usize, exponent_sign_pos);
        let half = root_exponent(pow2((levels - 1) as nat) as usize, exponent_sign_pos);
        lemma_root_exponent(levels, exponent_sign_pos);
        lemma_root_exponent((levels - 1) as nat, exponent_sign_pos);
        lemma_pow2_unfold((16 - (levels - 1)) as nat);
        assert((2 * e) % 65536 == half);
        lemma_pow_adds(g, e, e);
        lemma_mul_mod_noop_general(pow(g, e), pow(g, e), MODULUS as int);
        lemma_generator_exponent(2 * e);
    }

    proof fn lemma_roots_inverse(levels: nat) {
        let g = GENERATOR as int;
        let up = root_exponent(pow2(levels) as usize, true);
        let down = root_exponent(pow2(levels) as usize, false);
        lemma_root_exponent(levels, true);
        lemma_root_exponent(levels, false);
        assert(up + down == 0 || up + down == 65536);
        lemma_pow_adds(g, up, down);
        lemma_mul_mod_noop_general(pow(g, up), pow(g, down), MODULUS as int);
        lemma_generator_order();
        lemma_pow0(g);
    }

    proof fn lemma_scaling(r: Residue, levels: nat) {
        let n = pow2(levels) as int;
        let inverse = pow(n, 65535);
        lemma_root_exponent(levels, true);
        lemma_multiple_of_residue(r, pow2(levels));
        lemma_power_of_two_order(levels);
        lemma_mul_mod_noop_general(n * r@, inverse, MODULUS as int);
        lemma_mul_mod_noop_general(r@, n * inverse, MODULUS as int);
        assert((n * r@) * inverse == r@ * (n * inverse)) by (nonlinear_arith);
        assert(r@ * 1 == r@);
    }
}

} // verus!
