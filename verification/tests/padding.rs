use processig::padding::{pad_front, padded_length};

#[test]
fn padded_length_is_the_next_power_of_two() {
    assert_eq!(padded_length(16), 16);
    assert_eq!(padded_length(17), 32);
    assert_eq!(padded_length(1), 1);
    assert_eq!(padded_length(0), 1);
    assert_eq!(padded_length(2), 2);
    assert_eq!(padded_length(3), 4);
    assert_eq!(padded_length(1000), 1024);
    assert_eq!(padded_length(1024), 1024);
    assert_eq!(padded_length(1025), 2048);
}

#[test]
fn padded_length_is_two_to_the_rounded_up_logarithm() {
    for n in 1usize..5000 {
        let mut e = 0u32;
        while (1usize << e) < n {
            e += 1;
        }
        let p = padded_length(n);
        assert_eq!(p, 1usize << e);
        assert!(p.is_power_of_two());
        assert!(p >= n);
        assert!(p < 2 * n);
    }
}

#[test]
fn padded_length_at_the_top_of_the_range() {
    let top = usize::MAX / 2 + 1;
    assert_eq!(padded_length(top), top);
    assert_eq!(padded_length(top - 1), top);
    assert_eq!(padded_length(top / 2 + 1), top);
}

#[test]
fn pad_front_prepends_the_fill_value() {
    assert_eq!(pad_front(&[7u8, 8, 9][..], 0), vec![0u8, 7, 8, 9]);
    assert_eq!(pad_front(&[1i32, 2, 3, 4][..], -1), vec![1, 2, 3, 4]);
    assert_eq!(pad_front(&[5u16; 5][..], 9), vec![9u16, 9, 9, 5, 5, 5, 5, 5]);
    let empty: [u64; 0] = [];
    assert_eq!(pad_front(&empty[..], 3), vec![3u64]);
}
