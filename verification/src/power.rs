//! Powers of two and the rounded-up binary logarithm.

use vstd::arithmetic::power2::{
    lemma2_to64, lemma_pow2_pos, lemma_pow2_strictly_increases, lemma_pow2_unfold, pow2,
};
use vstd::prelude::*;

verus! {

/// The binary logarithm of `n`, rounded up: the least `e` with `n <= 2^e`.
/// It is 0 for `n` equal to 0 or 1.
pub open spec fn ceil_log2(n: nat) -> nat
    decreases n,
{
    if n <= 1 {
        0
    } else {
        1 + ceil_log2((n + 1) / 2)
    }
}

/// `n` is `2^e` for some `e`.
pub open spec fn is_power_of_two(n: nat) -> bool {
    exists|e: nat| n == pow2(e)
}

/// `2^ceil_log2(n)` is at least `n`, and the power of two before it is not.
pub proof fn lemma_ceil_log2_bounds(n: nat)
    ensures
        n <= pow2(ceil_log2(n)),
        ceil_log2(n) > 0 ==> pow2((ceil_log2(n) - 1) as nat) < n,
    decreases n,
{
    lemma2_to64();
    if n > 1 {
        let h = (n + 1) / 2;
        lemma_ceil_log2_bounds(h);
        lemma_pow2_unfold(ceil_log2(n));
        if ceil_log2(h) > 0 {
            lemma_pow2_unfold(ceil_log2(h));
        }
    }
}

/// Powers of two grow with the exponent.
pub proof fn lemma_pow2_monotonic(a: nat, b: nat)
    requires
        a <= b,
    ensures
        pow2(a) <= pow2(b),
{
    if a < b {
        lemma_pow2_strictly_increases(a, b);
    }
}

/// A smaller power of two has a smaller exponent.
pub proof fn lemma_pow2_exponent_order(a: nat, b: nat)
    requires
        pow2(a) < pow2(b),
    ensures
        a < b,
{
    if a >= b {
        lemma_pow2_monotonic(b, a);
    }
}

/// Only one exponent `e` has `2^(e-1) < n <= 2^e`, and it is `ceil_log2(n)`.
pub proof fn lemma_ceil_log2_unique(n: nat, e: nat)
    requires
        n <= pow2(e),
        e > 0 ==> pow2((e - 1) as nat) < n,
    ensures
        e == ceil_log2(n),
{
    let c = ceil_log2(n);
    lemma_ceil_log2_bounds(n);
    if e < c {
        lemma_pow2_monotonic(e, (c - 1) as nat);
    }
    if c < e {
        lemma_pow2_monotonic(c, (e - 1) as nat);
    }
}

/// The exponent of a power of two is its rounded-up logarithm.
pub proof fn lemma_ceil_log2_of_pow2(e: nat)
    ensures
        ceil_log2(pow2(e)) == e,
{
    if e > 0 {
        lemma_pow2_strictly_increases((e - 1) as nat, e);
    }
    lemma_ceil_log2_unique(pow2(e), e);
}

/// A power of two is 2 to its own rounded-up logarithm, and is not 0.
pub proof fn lemma_power_of_two_log(n: nat)
    requires
        is_power_of_two(n),
    ensures
        n == pow2(ceil_log2(n)),
        n >= 1,
{
    let e = choose|e: nat| n == pow2(e);
    lemma_ceil_log2_of_pow2(e);
    lemma_pow2_pos(e);
}

/// Half of a power of two above 1 is a power of two, one exponent lower.
pub proof fn lemma_power_of_two_halves(n: nat)
    requires
        is_power_of_two(n),
        n >= 2,
    ensures
        n % 2 == 0,
        is_power_of_two(n / 2),
        ceil_log2(n) == ceil_log2(n / 2) + 1,
{
    lemma2_to64();
    let e = choose|e: nat| n == pow2(e);
    assert(e > 0);
    lemma_pow2_unfold(e);
    assert(n / 2 == pow2((e - 1) as nat));
    lemma_ceil_log2_of_pow2(e);
    lemma_ceil_log2_of_pow2((e - 1) as nat);
}

} // verus!
