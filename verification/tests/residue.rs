use processig::dif::cooley_tukey_radix2_dif;
use processig::dit::cooley_tukey_radix2_dit;
use processig::fft::{fft_dif, fft_dit, ifft_dif, ifft_dit};
use processig::residue::{Residue, GENERATOR, GROUP_ORDER, MODULUS};
use processig::sample::Sample;

fn residues(values: &[u32]) -> Vec<Residue> {
    values.iter().map(|v| Residue::new(*v)).collect()
}

fn values(residues: &[Residue]) -> Vec<u32> {
    residues.iter().map(|r| r.value()).collect()
}

#[test]
fn residue_constants() {
    assert_eq!(MODULUS, 65537);
    assert_eq!(GROUP_ORDER, 65536);
    assert_eq!(GENERATOR, 3);
}

#[test]
fn residue_has_one_value_for_each_class() {
    assert_eq!(Residue::new(0), Residue::Small(0));
    assert_eq!(Residue::new(65535), Residue::Small(65535));
    assert_eq!(Residue::new(65536), Residue::MinusOne);
    assert_eq!(Residue::new(65537), Residue::Small(0));
    assert_eq!(Residue::new(2 * 65537 - 1), Residue::MinusOne);
    assert_eq!(Residue::MinusOne.value(), 65536);
    assert_eq!(Residue::Small(12).value(), 12);
    assert_eq!(Residue::MinusOne.plus(Residue::one()), Residue::zero());
    assert_eq!(Residue::MinusOne.times(Residue::MinusOne), Residue::one());
    assert_eq!(Residue::zero().minus(Residue::one()), Residue::MinusOne);
}

#[test]
fn residue_new_reduces() {
    assert_eq!(Residue::new(0).value(), 0);
    assert_eq!(Residue::new(65536).value(), 65536);
    assert_eq!(Residue::new(65537).value(), 0);
    assert_eq!(Residue::new(65538).value(), 1);
    assert_eq!(Residue::new(u32::MAX).value(), u32::MAX % 65537);
}

#[test]
fn residue_arithmetic() {
    let a = Residue::new(65536);
    let b = Residue::new(2);
    assert_eq!(a.plus(b).value(), 1);
    assert_eq!(b.minus(a).value(), 3);
    assert_eq!(a.minus(b).value(), 65534);
    assert_eq!(a.times(a).value(), 1);
    assert_eq!(a.times(b).value(), 65535);
    assert_eq!(Residue::new(256).times(Residue::new(256)).value(), 65536);
    assert_eq!(Residue::zero().value(), 0);
    assert_eq!(Residue::one().value(), 1);
    assert_eq!(Residue::real_zero().value(), 0);
    assert_eq!(Residue::from_real(Residue::new(77)).value(), 77);
}

#[test]
fn residue_power_and_inverse() {
    let g = Residue::new(GENERATOR);
    assert_eq!(g.power(0).value(), 1);
    assert_eq!(g.power(1).value(), 3);
    assert_eq!(g.power(10).value(), 59049);
    assert_eq!(g.power(11).value(), 46073);
    assert_eq!(g.power(32768).value(), 65536);
    assert_eq!(g.power(65536).value(), 1);
    assert_eq!(Residue::new(0).power(0).value(), 1);
    assert_eq!(Residue::new(0).power(5).value(), 0);
    assert_eq!(Residue::new(2).inverse().value(), 32769);
    assert_eq!(Residue::new(8).inverse().value(), 57345);
    assert_eq!(Residue::new(0).inverse().value(), 0);
    for v in [1u32, 2, 3, 1000, 65535, 65536] {
        let r = Residue::new(v);
        assert_eq!(r.times(r.inverse()).value(), 1);
    }
}

#[test]
fn residue_roots_of_unity() {
    assert_eq!(Residue::root_of_unity(1, true).value(), 1);
    assert_eq!(Residue::root_of_unity(1, false).value(), 1);
    assert_eq!(Residue::root_of_unity(2, true).value(), 65536);
    assert_eq!(Residue::root_of_unity(2, false).value(), 65536);
    assert_eq!(Residue::root_of_unity(4, true).value(), 65281);
    assert_eq!(Residue::root_of_unity(4, false).value(), 256);
    assert_eq!(Residue::root_of_unity(8, true).value(), 4096);
    assert_eq!(Residue::root_of_unity(8, false).value(), 65521);
    assert_eq!(Residue::root_of_unity(65536, true).value(), 3);
    // Beyond the group order there is no root left but 1.
    assert_eq!(Residue::root_of_unity(65537, true).value(), 1);
    assert_eq!(Residue::root_of_unity(65537, false).value(), 1);
    for levels in 0..=16u32 {
        let n = 1usize << levels;
        let up = Residue::root_of_unity(n, true);
        let down = Residue::root_of_unity(n, false);
        assert_eq!(up.times(down).value(), 1);
        assert_eq!(up.power(n as u32).value(), 1);
        if n > 1 {
            assert_eq!(up.power((n / 2) as u32).value(), 65536);
        }
    }
}

#[test]
fn residue_real_part_over() {
    assert_eq!(Residue::new(24).real_part_over(8).value(), 3);
    assert_eq!(Residue::new(5).real_part_over(1).value(), 5);
    assert_eq!(Residue::new(1).real_part_over(2).value(), 32769);
    assert_eq!(Residue::new(9).real_part_over(65537).value(), 0);
    assert_eq!(Residue::new(24).real_part_over(65537 + 8).value(), 3);
}

#[test]
fn residue_known_small_transform() {
    // 256 is a square root of -1, so [4, 510, 0, 65023] reads
    // [4, -2 + 2 * 256, 0, -2 - 2 * 256].
    let x = residues(&[0, 2, 2, 0]);
    assert_eq!(values(&fft_dit::<Residue>(&x[..])[..]), vec![4, 510, 0, 65023]);
    assert_eq!(values(&fft_dif::<Residue>(&x[..])[..]), vec![4, 510, 0, 65023]);
    let spectrum = residues(&[4, 510, 0, 65023]);
    assert_eq!(values(&ifft_dit(&spectrum[..])[..]), vec![0, 2, 2, 0]);
    assert_eq!(values(&ifft_dif(&spectrum[..])[..]), vec![0, 2, 2, 0]);
}

#[test]
fn residue_impulse_transforms_to_all_ones() {
    let x = residues(&[1, 0, 0, 0, 0, 0, 0, 0]);
    assert_eq!(values(&fft_dit::<Residue>(&x[..])[..]), vec![1; 8]);
    assert_eq!(values(&fft_dif::<Residue>(&x[..])[..]), vec![1; 8]);
}

#[test]
fn residue_shifted_impulse_transforms_to_the_roots_of_unity() {
    let x = residues(&[0, 1, 0, 0, 0, 0, 0, 0]);
    let want = vec![1, 65521, 256, 61441, 65536, 16, 65281, 4096];
    assert_eq!(values(&fft_dit::<Residue>(&x[..])[..]), want);
    assert_eq!(values(&fft_dif::<Residue>(&x[..])[..]), want);
    let w = Residue::root_of_unity(8, false);
    for k in 0..8u32 {
        assert_eq!(w.power(k).value(), want[k as usize]);
    }
}

#[test]
fn residue_transform_of_eight_samples() {
    let x = residues(&[5, 7, 11, 13, 17, 19, 23, 29]);
    let want = vec![124, 62644, 61429, 52468, 65525, 62262, 4084, 19189];
    assert_eq!(values(&cooley_tukey_radix2_dit(&x[..], false)[..]), want);
    assert_eq!(values(&cooley_tukey_radix2_dif(&x[..], false)[..]), want);
}

#[test]
fn residue_transforms_compute_the_sum_over_powers_of_the_root() {
    let n = 64usize;
    let x: Vec<Residue> = (0..n).map(|i| Residue::new((i * i * 31 + 17) as u32)).collect();
    for dir in [false, true] {
        let w = Residue::root_of_unity(n, dir);
        let dit = cooley_tukey_radix2_dit(&x[..], dir);
        let dif = cooley_tukey_radix2_dif(&x[..], dir);
        for k in 0..n {
            let mut acc = Residue::zero();
            for j in 0..n {
                acc = acc.plus(x[j].times(w.power((j * k) as u32)));
            }
            assert_eq!(dit[k].value(), acc.value());
            assert_eq!(dif[k].value(), acc.value());
        }
    }
}

#[test]
fn residue_recursive_and_iterative_transform_agree() {
    for levels in 0..=10u32 {
        let n = 1usize << levels;
        let x: Vec<Residue> = (0..n).map(|i| Residue::new((i * 2654435 + 99) as u32)).collect();
        for dir in [false, true] {
            let dit = cooley_tukey_radix2_dit(&x[..], dir);
            let dif = cooley_tukey_radix2_dif(&x[..], dir);
            assert_eq!(dit.len(), n);
            assert_eq!(values(&dit[..]), values(&dif[..]));
        }
    }
}

#[test]
fn residue_inverse_of_forward_is_exact() {
    for levels in 0..=8u32 {
        let n = 1usize << levels;
        let x: Vec<u32> = (0..n).map(|i| ((i * 40503 + 12345) % 65537) as u32).collect();
        let r = residues(&x[..]);
        assert_eq!(values(&ifft_dit(&fft_dit::<Residue>(&r[..])[..])[..]), x);
        assert_eq!(values(&ifft_dif(&fft_dif::<Residue>(&r[..])[..])[..]), x);
    }
}

#[test]
fn residue_edge_cases() {
    let none: Vec<Residue> = vec![];
    assert_eq!(values(&fft_dit::<Residue>(&none[..])[..]), vec![0]);
    assert_eq!(values(&fft_dif::<Residue>(&none[..])[..]), vec![0]);
    assert_eq!(values(&ifft_dit(&none[..])[..]), vec![0]);
    let one = residues(&[4242]);
    assert_eq!(values(&fft_dit::<Residue>(&one[..])[..]), vec![4242]);
    assert_eq!(values(&fft_dif::<Residue>(&one[..])[..]), vec![4242]);
    assert_eq!(values(&ifft_dif(&one[..])[..]), vec![4242]);
    let three = residues(&[1, 1, 1]);
    // Padded in front to [0, 1, 1, 1].
    assert_eq!(values(&fft_dit::<Residue>(&three[..])[..]), vec![3, 65536, 65536, 65536]);
}
