use processig::bits::reverse_bits;

#[test]
fn test_reverse_bit() {
    let ret = reverse_bits(0b1110101, 7);
    assert_eq!(ret, 0b1010111);
}

#[test]
fn reversing_no_bits_gives_zero() {
    assert_eq!(reverse_bits(0, 0), 0);
    assert_eq!(reverse_bits(0xffff_ffff, 0), 0);
}

#[test]
fn reversing_one_bit_keeps_it() {
    assert_eq!(reverse_bits(0, 1), 0);
    assert_eq!(reverse_bits(1, 1), 1);
    assert_eq!(reverse_bits(0b110, 1), 0);
}

#[test]
fn bits_above_the_width_are_dropped() {
    assert_eq!(reverse_bits(0b1111_0001, 4), 0b1000);
    assert_eq!(reverse_bits(0b1_0000, 4), 0);
}

#[test]
fn reversing_three_bits() {
    let expected = [0u32, 4, 2, 6, 1, 5, 3, 7];
    for i in 0..8u32 {
        assert_eq!(reverse_bits(i, 3), expected[i as usize]);
    }
}

#[test]
fn reversing_all_thirty_two_bits() {
    assert_eq!(reverse_bits(1, 32), 0x8000_0000);
    assert_eq!(reverse_bits(0x8000_0000, 32), 1);
    assert_eq!(reverse_bits(0x0000_ffff, 32), 0xffff_0000);
    assert_eq!(reverse_bits(0x1234_5678, 32), 0x1e6a_2c48);
    assert_eq!(reverse_bits(0x1234_5678, 32), 0x1234_5678u32.reverse_bits());
}

#[test]
fn beyond_thirty_two_bits_the_top_is_lost() {
    // 33 bits: bit 0 moves to bit 32, which a 32-bit result does not have.
    assert_eq!(reverse_bits(1, 33), 0);
    assert_eq!(reverse_bits(2, 33), 0x8000_0000);
    assert_eq!(reverse_bits(0xffff_ffff, 40), 0xffff_ff00);
    assert_eq!(reverse_bits(0xffff_ffff, 64), 0);
}

#[test]
fn reversing_twice_gives_the_number_back() {
    for width in 0..=12u32 {
        for x in 0..(1u32 << width) {
            assert_eq!(reverse_bits(reverse_bits(x, width), width), x);
        }
    }
    for x in [0u32, 1, 0xdead_beef, 0x8000_0001, 0xffff_ffff, 0x0f0f_1234] {
        assert_eq!(reverse_bits(reverse_bits(x, 32), 32), x);
    }
}

#[test]
fn reversal_permutes_the_indices() {
    for width in 0..=10u32 {
        let n = 1usize << width;
        let mut seen = vec![false; n];
        for x in 0..n {
            let r = reverse_bits(x as u32, width) as usize;
            assert!(r < n);
            assert!(!seen[r]);
            seen[r] = true;
        }
    }
}
