//! Forward and inverse transforms of padded sequences.

use crate::agreement::lemma_dit_dif_agree;
use crate::bits::bit_reversal;
use crate::dif::cooley_tukey_radix2_dif;
use crate::dit::cooley_tukey_radix2_dit;
use crate::padding::{
    lemma_padded_len_least, pad_to_nearest_power2, pad_to_nearest_power2_complex, padded,
    padded_len,
};
use crate::power::ceil_log2;
use crate::sample::Sample;
use crate::transform::{dif, dit};
use vstd::arithmetic::power2::lemma2_to64;
use vstd::prelude::*;

verus! {

/// Each real sample as a complex sample with imaginary part 0.
pub open spec fn lifted_all<S: Sample>(x: Seq<S::Real>) -> Seq<S> {
    Seq::new(x.len(), |i: int| S::lifted(x[i]))
}

/// What a forward transform works on: the real input, padded with leading
/// zeros to a power-of-two length and lifted to complex samples.
pub open spec fn forward_input<S: Sample>(x: Seq<S::Real>) -> Seq<S> {
    lifted_all::<S>(padded(x, S::real_zero_value()))
}

/// What an inverse transform works on: the complex input, padded with leading
/// zeros to a power-of-two length.
pub open spec fn inverse_input<S: Sample>(x: Seq<S>) -> Seq<S> {
    padded(x, S::zero_value())
}

/// The real part of each sample of `y`, divided by the length of `y`.
pub open spec fn normalized<S: Sample>(y: Seq<S>) -> Seq<S::Real> {
    Seq::new(y.len(), |i: int| y[i].scaled_real_part(y.len() as usize))
}

/// A length of at most `2^32` is padded to at most `2^32`.
pub proof fn lemma_padded_len_at_most_2_32(n: nat)
    requires
        n <= 0x1_0000_0000,
    ensures
        padded_len(n) <= 0x1_0000_0000,
{
    lemma2_to64();
    lemma_padded_len_least(n, 32);
}

/// A single sample is its own transform, recursive or iterative, in either
/// direction.
pub proof fn lemma_transform_of_single<S: Sample>(x: S, exponent_sign_pos: bool)
    ensures
        dit(seq![x], exponent_sign_pos) == seq![x],
        dif(seq![x], exponent_sign_pos) == seq![x],
{
    assert(ceil_log2(1) == 0);
    assert(bit_reversal(0, 0) == 0);
    assert(dif(seq![x], exponent_sign_pos) =~= seq![x]);
}

/// The forward transform of no samples at all is the single sample 0: the
/// input is padded to one zero sample, which is its own transform.
pub proof fn lemma_forward_of_empty<S: Sample>()
    ensures
        dit(forward_input::<S>(Seq::empty()), false) == seq![S::lifted(S::real_zero_value())],
        dif(forward_input::<S>(Seq::empty()), false) == seq![S::lifted(S::real_zero_value())],
{
    lemma2_to64();
    assert(ceil_log2(0) == 0);
    assert(forward_input::<S>(Seq::empty()) =~= seq![S::lifted(S::real_zero_value())]);
    lemma_transform_of_single(S::lifted(S::real_zero_value()), false);
}

/// The forward transform of the single real sample `x` is `x` as a complex
/// sample: nothing is padded and nothing combined.
pub proof fn lemma_forward_of_single<S: Sample>(x: S::Real)
    ensures
        dit(forward_input::<S>(seq![x]), false) == seq![S::lifted(x)],
        dif(forward_input::<S>(seq![x]), false) == seq![S::lifted(x)],
{
    lemma2_to64();
    assert(ceil_log2(1) == 0);
    assert(forward_input::<S>(seq![x]) =~= seq![S::lifted(x)]);
    lemma_transform_of_single(S::lifted(x), false);
}

/// The inverse transform of no samples at all is the real part of the sample
/// 0 over 1; that of the single sample `x` is the real part of `x` over 1.
pub proof fn lemma_inverse_of_at_most_one<S: Sample>(x: S)
    ensures
        normalized(dit(inverse_input::<S>(Seq::empty()), true)) == seq![
            S::zero_value().scaled_real_part(1),
        ],
        normalized(dit(inverse_input(seq![x]), true)) == seq![x.scaled_real_part(1)],
{
    lemma2_to64();
    assert(ceil_log2(0) == 0);
    assert(ceil_log2(1) == 0);
    assert(inverse_input::<S>(Seq::empty()) =~= seq![S::zero_value()]);
    assert(inverse_input(seq![x]) =~= seq![x]);
    lemma_transform_of_single(S::zero_value(), true);
    lemma_transform_of_single(x, true);
    assert(normalized(seq![S::zero_value()]) =~= seq![S::zero_value().scaled_real_part(1)]);
    assert(normalized(seq![x]) =~= seq![x.scaled_real_part(1)]);
}

/// Lifts real samples to complex ones.
pub fn lift<S: Sample>(v: &[S::Real]) -> (out: Vec<S>)
    ensures
        out@ == lifted_all::<S>(v@),
{
    let mut out: Vec<S> = Vec::with_capacity(v.len());
    let mut i: usize = 0;
    while i < v.len()
        invariant
            i <= v.len(),
            out.len() == i,
            forall|k: int| 0 <= k < i ==> out@[k] == S::lifted(v@[k]),
        decreases v.len() - i,
    {
        out.push(S::from_real(v[i]));
        i += 1;
    }
    assert(out@ =~= lifted_all::<S>(v@));
    out
}

/// Divides the real part of each sample by the number of samples and drops
/// the imaginary parts.
pub fn normalize<S: Sample>(v: &[S]) -> (out: Vec<S::Real>)
    ensures
        out@ == normalized(v@),
{
    let n = v.len();
    let mut out: Vec<S::Real> = Vec::with_capacity(n);
    let mut i: usize = 0;
    while i < n
        invariant
            i <= n,
            n == v.len(),
            out.len() == i,
            forall|k: int| 0 <= k < i ==> out@[k] == v@[k].scaled_real_part(n),
        decreases n - i,
    {
        out.push(v[i].real_part_over(n));
        i += 1;
    }
    assert(out@ =~= normalized(v@));
    out
}

/// Forward transform of real samples, by recursive decimation in time.
pub fn fft_dit<S: Sample>(arr: &[S::Real]) -> (out: Vec<S>)
    requires
        padded_len(arr.len() as nat) <= usize::MAX,
    ensures
        out@ == dit(forward_input::<S>(arr@), false),
        out.len() == padded_len(arr.len() as nat),
{
    let v = pad_to_nearest_power2::<S>(arr);
    let v_complex = lift::<S>(v.as_slice());
    proof {
        lemma_padded_len_least(arr.len() as nat, 0);
    }
    cooley_tukey_radix2_dit(v_complex.as_slice(), false)
}

/// Forward transform of real samples, by the iterative butterfly network.
pub fn fft_dif<S: Sample>(arr: &[S::Real]) -> (out: Vec<S>)
    requires
        padded_len(arr.len() as nat) <= usize::MAX,
        arr.len() <= 0x1_0000_0000,
    ensures
        out@ == dif(forward_input::<S>(arr@), false),
        out@ == dit(forward_input::<S>(arr@), false),
        out.len() == padded_len(arr.len() as nat),
{
    let v = pad_to_nearest_power2::<S>(arr);
    let v_complex = lift::<S>(v.as_slice());
    proof {
        lemma_padded_len_least(arr.len() as nat, 0);
        lemma_padded_len_at_most_2_32(arr.len() as nat);
        lemma_dit_dif_agree(v_complex@, false);
    }
    cooley_tukey_radix2_dif(v_complex.as_slice(), false)
}

/// Inverse transform to real samples, by recursive decimation in time.
pub fn ifft_dit<S: Sample>(arr: &[S]) -> (ret: Vec<S::Real>)
    requires
        padded_len(arr.len() as nat) <= usize::MAX,
    ensures
        ret@ == normalized(dit(inverse_input(arr@), true)),
        ret.len() == padded_len(arr.len() as nat),
{
    let v_complex = pad_to_nearest_power2_complex(arr);
    proof {
        lemma_padded_len_least(arr.len() as nat, 0);
    }
    let v = cooley_tukey_radix2_dit(v_complex.as_slice(), true);
    normalize(v.as_slice())
}

/// Inverse transform to real samples, by the iterative butterfly network.
pub fn ifft_dif<S: Sample>(arr: &[S]) -> (ret: Vec<S::Real>)
    requires
        padded_len(arr.len() as nat) <= usize::MAX,
        arr.len() <= 0x1_0000_0000,
    ensures
        ret@ == normalized(dif(inverse_input(arr@), true)),
        ret@ == normalized(dit(inverse_input(arr@), true)),
        ret.len() == padded_len(arr.len() as nat),
{
    let v_complex = pad_to_nearest_power2_complex(arr);
    proof {
        lemma_padded_len_least(arr.len() as nat, 0);
        lemma_padded_len_at_most_2_32(arr.len() as nat);
        lemma_dit_dif_agree(v_complex@, true);
    }
    let v = cooley_tukey_radix2_dif(v_complex.as_slice(), true);
    normalize(v.as_slice())
}

} // verus!
