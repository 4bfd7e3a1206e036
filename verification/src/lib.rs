//! Radix-2 Cooley-Tukey transforms between the time domain and the frequency
//! domain, verified with Verus.
//!
//! The transforms work on any sample type that offers the arithmetic of
//! [`sample::Sample`]. Their contracts say which operations are applied to
//! which samples: [`transform`] defines the butterfly network, [`dit`] and
//! [`dif`] compute it by recursion and in place, and [`fft`] holds the forward
//! and inverse transforms of padded input. [`agreement`] proves that the two
//! ways of computing give the same samples. For sample types with exact
//! arithmetic ([`exact`], of which [`residue`] is one) [`dft`] proves that
//! the network computes the discrete Fourier sum, and [`roundtrip`] that the
//! inverse transform undoes the forward one.

pub mod agreement;
pub mod bits;
pub mod dft;
pub mod dif;
pub mod dit;
pub mod exact;
pub mod fft;
pub mod padding;
pub mod power;
pub mod residue;
pub mod roundtrip;
pub mod sample;
pub mod sums;
pub mod transform;
