use num::complex::Complex;
use processig::dif::cooley_tukey_radix2_dif;
use processig::dit::cooley_tukey_radix2_dit;
use processig::fft::{fft_dif, fft_dit, ifft_dif, ifft_dit, lift, normalize};
use processig::padding::{pad_to_nearest_power2, pad_to_nearest_power2_complex};
use processig::sample::{zeros, Sample};

const E: &f32 = &0.0001;

/// Single-precision complex samples.
#[derive(Clone, Copy, Debug, PartialEq)]
struct C(Complex<f32>);

impl Sample for C {
    type Real = f32;

    // Built without Verus, the models are ordinary methods: each has the body
    // of its operation.
    fn zero_value() -> Self {
        Self::zero()
    }
    fn one_value() -> Self {
        Self::one()
    }
    fn sum(self, other: Self) -> Self {
        self.plus(other)
    }
    fn difference(self, other: Self) -> Self {
        self.minus(other)
    }
    fn product(self, other: Self) -> Self {
        self.times(other)
    }
    fn principal_root(n: usize, exponent_sign_pos: bool) -> Self {
        Self::root_of_unity(n, exponent_sign_pos)
    }
    fn lifted(x: f32) -> Self {
        Self::from_real(x)
    }
    fn real_zero_value() -> f32 {
        Self::real_zero()
    }
    fn scaled_real_part(self, n: usize) -> f32 {
        self.real_part_over(n)
    }

    fn zero() -> Self {
        C(Complex::new(0f32, 0f32))
    }
    fn one() -> Self {
        C(Complex::new(1f32, 0f32))
    }
    fn plus(self, other: Self) -> Self {
        C(self.0 + other.0)
    }
    fn minus(self, other: Self) -> Self {
        C(self.0 - other.0)
    }
    fn times(self, other: Self) -> Self {
        C(self.0 * other.0)
    }
    fn root_of_unity(n: usize, exponent_sign_pos: bool) -> Self {
        let i = Complex::new(0f32, 1f32);
        let exponent = if exponent_sign_pos {
            2f32 * std::f32::consts::PI * i / (n as f32)
        } else {
            -2f32 * std::f32::consts::PI * i / (n as f32)
        };
        C(exponent.exp())
    }
    fn from_real(x: f32) -> Self {
        C(Complex::new(x, 0f32))
    }
    fn real_zero() -> f32 {
        0f32
    }
    fn real_part_over(self, n: usize) -> f32 {
        self.0.re / n as f32
    }
}

fn nearly_equal(aa: &f32, bb: &f32, ee: &f32) -> bool {
    let dd = if aa < bb { bb - aa } else { aa - bb };
    dd < *ee
}

fn complex_samples(parts: &[(f32, f32)]) -> Vec<C> {
    parts.iter().map(|p| C(Complex::new(p.0, p.1))).collect()
}

/// The sum that the transforms factor: `X[k] = sum_j x[j] e^(sign 2 pi i j k / N)`,
/// in double precision.
fn direct_sum(x: &[C], exponent_sign_pos: bool) -> Vec<Complex<f64>> {
    let n = x.len();
    let sign = if exponent_sign_pos { 1f64 } else { -1f64 };
    (0..n)
        .map(|k| {
            let mut acc = Complex::new(0f64, 0f64);
            for j in 0..n {
                let angle = sign * 2f64 * std::f64::consts::PI * ((j * k) % n) as f64 / n as f64;
                let w = Complex::new(angle.cos(), angle.sin());
                acc = acc + Complex::new(x[j].0.re as f64, x[j].0.im as f64) * w;
            }
            acc
        })
        .collect()
}

#[test]
fn test_padding() {
    let arr1 = vec![1f32; 16];
    let arr2 = vec![1f32; 17];
    let arr3 = vec![1f32; 1];

    let out1 = pad_to_nearest_power2::<C>(&arr1[..]);
    let out2 = pad_to_nearest_power2::<C>(&arr2[..]);
    let out3 = pad_to_nearest_power2::<C>(&arr3[..]);

    assert_eq!(out1.len(), 16);
    assert_eq!(out2.len(), 32);
    assert_eq!(out3.len(), 1);
}

#[test]
fn test_fft_dit() {
    let arr = vec![0., 2., 2., 0.];
    let out = fft_dit::<C>(&arr[..]);
    let expected = vec![
        Complex { re: 4., im: 0. },
        Complex { re: -2., im: -2. },
        Complex { re: 0., im: 0. },
        Complex { re: -2., im: 2. },
    ];

    assert_eq!(out.len(), 4);
    expected.iter().zip(out.iter()).for_each(|x| {
        assert!(nearly_equal(&x.0.re, &x.1 .0.re, E) && nearly_equal(&x.0.im, &x.1 .0.im, E))
    });
}

#[test]
fn test_ifft_dit() {
    let arr = vec![
        C(Complex { re: 4., im: 0. }),
        C(Complex { re: -2., im: -2. }),
        C(Complex { re: 0., im: 0. }),
        C(Complex { re: -2., im: 2. }),
    ];
    let out = ifft_dit(&arr[..]);
    let expected = vec![0., 2., 2., 0.];
    assert_eq!(out.len(), 4);
    expected
        .iter()
        .zip(out.iter())
        .for_each(|x| assert!(nearly_equal(x.0, x.1, E) && nearly_equal(x.0, x.1, E)));
}

#[test]
fn test_fft_dif() {
    let arr = vec![0., 2., 2., 0.];
    let out = fft_dif::<C>(&arr[..]);
    let expected = vec![
        Complex { re: 4., im: 0. },
        Complex { re: -2., im: -2. },
        Complex { re: 0., im: 0. },
        Complex { re: -2., im: 2. },
    ];

    assert_eq!(out.len(), 4);
    expected.iter().zip(out.iter()).for_each(|x| {
        assert!(nearly_equal(&x.0.re, &x.1 .0.re, E) && nearly_equal(&x.0.im, &x.1 .0.im, E))
    });
}

#[test]
fn test_ifft_dif() {
    let arr = vec![
        C(Complex { re: 4., im: 0. }),
        C(Complex { re: -2., im: -2. }),
        C(Complex { re: 0., im: 0. }),
        C(Complex { re: -2., im: 2. }),
    ];
    let out = ifft_dif(&arr[..]);
    let expected = vec![0., 2., 2., 0.];
    assert_eq!(out.len(), 4);
    expected
        .iter()
        .zip(out.iter())
        .for_each(|x| assert!(nearly_equal(x.0, x.1, E) && nearly_equal(x.0, x.1, E)));
}

#[test]
fn test_fft_dit_2() {
    let arr = vec![1., 0., 0., 0., 0., 0., 0., 0.];
    let out = fft_dit::<C>(&arr[..]);
    let expected = vec![Complex { re: 1.0, im: 0. }; 8];

    assert_eq!(out.len(), 8);
    expected.iter().zip(out.iter()).for_each(|x| {
        assert!(nearly_equal(&x.0.re, &x.1 .0.re, E) && nearly_equal(&x.0.im, &x.1 .0.im, E))
    });
}

#[test]
fn test_fft_dif_2() {
    let arr = vec![1., 0., 0., 0., 0., 0., 0., 0.];
    let out = fft_dif::<C>(&arr[..]);
    let expected = vec![Complex { re: 1.0, im: 0. }; 8];

    assert_eq!(out.len(), 8);
    expected.iter().zip(out.iter()).for_each(|x| {
        assert!(nearly_equal(&x.0.re, &x.1 .0.re, E) && nearly_equal(&x.0.im, &x.1 .0.im, E))
    });
}

#[test]
fn test_fft_dit_3() {
    let arr = vec![0., 1., 0., 0., 0., 0., 0., 0.];
    let out = fft_dit::<C>(&arr[..]);
    let expected = vec![
        Complex { re: 1., im: 0. },
        Complex { re: 0.7071, im: -0.7071 },
        Complex { re: 0., im: -1. },
        Complex { re: -0.7071, im: -0.7071 },
        Complex { re: -1., im: 0. },
        Complex { re: -0.7071, im: 0.7071 },
        Complex { re: 0., im: 1. },
        Complex { re: 0.7071, im: 0.7071 },
    ];

    assert_eq!(out.len(), 8);
    expected.iter().zip(out.iter()).for_each(|x| {
        assert!(nearly_equal(&x.0.re, &x.1 .0.re, E) && nearly_equal(&x.0.im, &x.1 .0.im, E))
    });
}

#[test]
fn test_fft_dif_3() {
    let arr = vec![0., 1., 0., 0., 0., 0., 0., 0.];
    let out = fft_dif::<C>(&arr[..]);
    let expected = vec![
        Complex { re: 1., im: 0. },
        Complex { re: 0.7071, im: -0.7071 },
        Complex { re: 0., im: -1. },
        Complex { re: -0.7071, im: -0.7071 },
        Complex { re: -1., im: 0. },
        Complex { re: -0.7071, im: 0.7071 },
        Complex { re: 0., im: 1. },
        Complex { re: 0.7071, im: 0.7071 },
    ];
    assert_eq!(out.len(), 8);
    expected.iter().zip(out.iter()).for_each(|x| {
        assert!(nearly_equal(&x.0.re, &x.1 .0.re, E) && nearly_equal(&x.0.im, &x.1 .0.im, E))
    });
}

#[test]
fn forward_of_empty_input_is_one_zero_sample() {
    let arr: Vec<f32> = vec![];
    let dit = fft_dit::<C>(&arr[..]);
    let dif = fft_dif::<C>(&arr[..]);
    assert_eq!(dit, vec![C(Complex::new(0f32, 0f32))]);
    assert_eq!(dif, vec![C(Complex::new(0f32, 0f32))]);
}

#[test]
fn forward_of_one_sample_is_that_sample() {
    let arr = vec![-3.25f32];
    assert_eq!(fft_dit::<C>(&arr[..]), vec![C(Complex::new(-3.25f32, 0f32))]);
    assert_eq!(fft_dif::<C>(&arr[..]), vec![C(Complex::new(-3.25f32, 0f32))]);
}

#[test]
fn inverse_of_empty_and_of_one_sample() {
    let none: Vec<C> = vec![];
    assert_eq!(ifft_dit(&none[..]), vec![0f32]);
    assert_eq!(ifft_dif(&none[..]), vec![0f32]);
    let one = complex_samples(&[(7.5, -2.0)]);
    assert_eq!(ifft_dit(&one[..]), vec![7.5f32]);
    assert_eq!(ifft_dif(&one[..]), vec![7.5f32]);
}

#[test]
fn inverse_drops_the_imaginary_part() {
    // The spectrum of the complex signal [i, 0]: both samples are i. The
    // inverse transform gives the real parts of [i, 0], which are 0.
    let spectrum = complex_samples(&[(0., 1.), (0., 1.)]);
    let out = ifft_dit(&spectrum[..]);
    assert_eq!(out.len(), 2);
    assert!(nearly_equal(&out[0], &0., E));
    assert!(nearly_equal(&out[1], &0., E));
}

#[test]
fn padding_puts_the_zeros_in_front() {
    let arr = vec![1f32, 2., 3.];
    assert_eq!(pad_to_nearest_power2::<C>(&arr[..]), vec![0f32, 1., 2., 3.]);
    let arr = vec![1f32, 2., 3., 4., 5.];
    assert_eq!(
        pad_to_nearest_power2::<C>(&arr[..]),
        vec![0f32, 0., 0., 1., 2., 3., 4., 5.]
    );
    let empty: Vec<f32> = vec![];
    assert_eq!(pad_to_nearest_power2::<C>(&empty[..]), vec![0f32]);
    let c = complex_samples(&[(1., 2.), (3., 4.), (5., 6.)]);
    assert_eq!(
        pad_to_nearest_power2_complex(&c[..]),
        complex_samples(&[(0., 0.), (1., 2.), (3., 4.), (5., 6.)])
    );
}

#[test]
fn forward_of_three_samples_is_forward_of_zero_and_the_three() {
    let short = vec![2f32, -1., 4.];
    let long = vec![0f32, 2., -1., 4.];
    assert_eq!(fft_dit::<C>(&short[..]), fft_dit::<C>(&long[..]));
    assert_eq!(fft_dif::<C>(&short[..]), fft_dif::<C>(&long[..]));
    // [0, 2, -1, 4]: X0 = 5, X1 = 1 + 2i, X2 = -7, X3 = 1 - 2i.
    let out = fft_dit::<C>(&short[..]);
    let expected = [(5f32, 0f32), (1., 2.), (-7., 0.), (1., -2.)];
    for k in 0..4 {
        assert!(nearly_equal(&out[k].0.re, &expected[k].0, E));
        assert!(nearly_equal(&out[k].0.im, &expected[k].1, E));
    }
}

#[test]
fn transform_of_two_samples_is_sum_and_difference() {
    let x = complex_samples(&[(1.5, -2.0), (0.25, 4.0)]);
    for dir in [false, true] {
        let dit = cooley_tukey_radix2_dit(&x[..], dir);
        let dif = cooley_tukey_radix2_dif(&x[..], dir);
        let expected = complex_samples(&[(1.75, 2.0), (1.25, -6.0)]);
        assert_eq!(dit, expected);
        assert_eq!(dif, expected);
    }
}

#[test]
fn recursive_and_iterative_transform_agree() {
    for levels in 0..8 {
        let n = 1usize << levels;
        let x: Vec<C> = (0..n)
            .map(|i| {
                let t = i as f32;
                C(Complex::new((0.37 * t).sin() + 0.5, (1.3 * t).cos() - 0.25 * t))
            })
            .collect();
        for dir in [false, true] {
            let dit = cooley_tukey_radix2_dit(&x[..], dir);
            let dif = cooley_tukey_radix2_dif(&x[..], dir);
            assert_eq!(dit.len(), n);
            // Both apply the same operations to the same values.
            assert_eq!(dit, dif);
        }
    }
}

#[test]
fn transforms_compute_the_discrete_fourier_sum() {
    let x: Vec<C> = (0..16)
        .map(|i| {
            let t = i as f32;
            C(Complex::new(1.0 + 0.5 * t - 0.03 * t * t, (0.9 * t).sin()))
        })
        .collect();
    for dir in [false, true] {
        let want = direct_sum(&x[..], dir);
        let dit = cooley_tukey_radix2_dit(&x[..], dir);
        let dif = cooley_tukey_radix2_dif(&x[..], dir);
        for k in 0..16 {
            assert!((dit[k].0.re as f64 - want[k].re).abs() < 1e-3);
            assert!((dit[k].0.im as f64 - want[k].im).abs() < 1e-3);
            assert!((dif[k].0.re as f64 - want[k].re).abs() < 1e-3);
            assert!((dif[k].0.im as f64 - want[k].im).abs() < 1e-3);
        }
    }
}

#[test]
fn inverse_of_forward_gives_the_samples_back() {
    for levels in 0..8 {
        let n = 1usize << levels;
        let x: Vec<f32> = (0..n).map(|i| ((i * 7 + 3) % 11) as f32 - 4.5).collect();
        let back_dit = ifft_dit(&fft_dit::<C>(&x[..])[..]);
        let back_dif = ifft_dif(&fft_dif::<C>(&x[..])[..]);
        let back_mixed = ifft_dif(&fft_dit::<C>(&x[..])[..]);
        assert_eq!(back_dit.len(), n);
        for i in 0..n {
            assert!(nearly_equal(&back_dit[i], &x[i], E));
            assert!(nearly_equal(&back_dif[i], &x[i], E));
            assert!(nearly_equal(&back_mixed[i], &x[i], E));
        }
    }
}

#[test]
fn inverse_of_forward_gives_the_padded_samples_back() {
    let x = vec![3f32, -1., 2.5, 8., 0.5];
    let back = ifft_dit(&fft_dit::<C>(&x[..])[..]);
    let padded = [0f32, 0., 0., 3., -1., 2.5, 8., 0.5];
    assert_eq!(back.len(), 8);
    for i in 0..8 {
        assert!(nearly_equal(&back[i], &padded[i], E));
    }
}

#[test]
fn inverse_divides_by_the_padded_length() {
    // A spectrum of one sample 8 and three zeros in front: the inverse sum at
    // index 0 is 8, and 8 / 4 = 2.
    let spectrum = complex_samples(&[(8., 0.)]);
    let wide = complex_samples(&[(0., 0.), (0., 0.), (0., 0.), (8., 0.)]);
    assert_eq!(ifft_dit(&spectrum[..]), vec![8f32]);
    let out = ifft_dit(&wide[..]);
    assert!(nearly_equal(&out[0], &2., E));
}

#[test]
fn lift_and_normalize_work_sample_by_sample() {
    let reals = vec![1.5f32, -2., 0.];
    assert_eq!(
        lift::<C>(&reals[..]),
        complex_samples(&[(1.5, 0.), (-2., 0.), (0., 0.)])
    );
    let c = complex_samples(&[(4., 9.), (-8., 1.), (2., 2.), (0., -1.)]);
    assert_eq!(normalize(&c[..]), vec![1f32, -2., 0.5, 0.]);
    assert_eq!(zeros::<C>(3), complex_samples(&[(0., 0.), (0., 0.), (0., 0.)]));
}
