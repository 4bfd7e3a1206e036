//! The arithmetic that a transform needs from its samples.

use vstd::prelude::*;

verus! {

/// A complex sample, together with the real samples that it is made from.
///
/// The transforms never look inside a sample. They add, subtract and multiply
/// samples and ask for roots of unity, and their contracts say which of these
/// operations are applied to which values. Each operation therefore has a
/// model: a function that gives, for the same arguments, the value that the
/// operation returns. An implementation promises that each operation returns
/// what its model says, and so that it returns the same value whenever it is
/// called with the same arguments.
///
/// Code that is built without Verus sees the models as ordinary methods of the
/// trait. An implementation there gives each model the body of its operation.
pub trait Sample: Copy {
    /// The type of a real sample.
    type Real: Copy;

    /// Model of [`Sample::zero`].
    spec fn zero_value() -> Self;

    /// Model of [`Sample::one`].
    spec fn one_value() -> Self;

    /// Model of [`Sample::plus`].
    spec fn sum(self, other: Self) -> Self;

    /// Model of [`Sample::minus`].
    spec fn difference(self, other: Self) -> Self;

    /// Model of [`Sample::times`].
    spec fn product(self, other: Self) -> Self;

    /// Model of [`Sample::root_of_unity`].
    spec fn principal_root(n: usize, exponent_sign_pos: bool) -> Self;

    /// Model of [`Sample::from_real`].
    spec fn lifted(x: Self::Real) -> Self;

    /// Model of [`Sample::real_zero`].
    spec fn real_zero_value() -> Self::Real;

    /// Model of [`Sample::real_part_over`].
    spec fn scaled_real_part(self, n: usize) -> Self::Real;

    /// The complex sample 0.
    fn zero() -> (r: Self)
        ensures
            r == Self::zero_value(),
    ;

    /// The complex sample 1.
    fn one() -> (r: Self)
        ensures
            r == Self::one_value(),
    ;

    /// `self + other`.
    fn plus(self, other: Self) -> (r: Self)
        ensures
            r == self.sum(other),
    ;

    /// `self - other`.
    fn minus(self, other: Self) -> (r: Self)
        ensures
            r == self.difference(other),
    ;

    /// `self * other`.
    fn times(self, other: Self) -> (r: Self)
        ensures
            r == self.product(other),
    ;

    /// The principal `n`-th root of unity: `e^(2 pi i / n)` where
    /// `exponent_sign_pos` holds, `e^(-2 pi i / n)` where it does not.
    fn root_of_unity(n: usize, exponent_sign_pos: bool) -> (r: Self)
        requires
            n >= 1,
        ensures
            r == Self::principal_root(n, exponent_sign_pos),
    ;

    /// The complex sample with real part `x` and imaginary part 0.
    fn from_real(x: Self::Real) -> (r: Self)
        ensures
            r == Self::lifted(x),
    ;

    /// The real sample 0.
    fn real_zero() -> (r: Self::Real)
        ensures
            r == Self::real_zero_value(),
    ;

    /// The real part of `self`, divided by `n`.
    fn real_part_over(self, n: usize) -> (r: Self::Real)
        requires
            n >= 1,
        ensures
            r == self.scaled_real_part(n),
    ;
}

/// `w` to the power `e`: 1 multiplied `e` times by `w`.
pub open spec fn nth_power<S: Sample>(w: S, e: nat) -> S
    decreases e,
{
    if e == 0 {
        S::one_value()
    } else {
        nth_power(w, (e - 1) as nat).product(w)
    }
}

/// `n` times `a`: 0 increased `n` times by `a`.
pub open spec fn multiple<S: Sample>(a: S, n: nat) -> S
    decreases n,
{
    if n == 0 {
        S::zero_value()
    } else {
        multiple(a, (n - 1) as nat).sum(a)
    }
}

/// A buffer of `n` zero samples.
pub fn zeros<S: Sample>(n: usize) -> (v: Vec<S>)
    ensures
        v@ == Seq::new(n as nat, |i: int| S::zero_value()),
{
    let mut v: Vec<S> = Vec::with_capacity(n);
    let mut i: usize = 0;
    while i < n
        invariant
            i <= n,
            v@ == Seq::new(i as nat, |k: int| S::zero_value()),
        decreases n - i,
    {
        v.push(S::zero());
        i += 1;
    }
    v
}

} // verus!
