use orst::{Bytify, RadixSort, Sorter};
use rand::seq::SliceRandom;
use rand::thread_rng;

#[test]
fn it_works() {
    let mut nums: Vec<usize> = (0..600).collect();
    let mut rng = thread_rng();
    for _ in 0..100 {
        nums.shuffle(&mut rng);
        RadixSort.sort(&mut nums);
        assert_eq!(nums, (0..600).collect::<Vec<usize>>());
    }
}

#[test]
fn unsigned_scenario() {
    let mut nums: Vec<usize> = vec![4, 2, 5, 3, 1];
    RadixSort.sort(&mut nums);
    assert_eq!(nums, vec![1, 2, 3, 4, 5]);
}

#[test]
fn single_byte_keys() {
    let mut bytes: Vec<u8> = vec![170, 0, 255, 1];
    RadixSort.sort(&mut bytes);
    assert_eq!(bytes, vec![0, 1, 170, 255]);
}

#[test]
fn signed_scenario() {
    let mut nums: Vec<i32> = vec![-5, 3, -1, 0, 2];
    RadixSort.sort(&mut nums);
    assert_eq!(nums, vec![-5, -1, 0, 2, 3]);
}

#[test]
fn bytify_u8() {
    let x: u8 = 5;
    assert_eq!(x.bytify(0), Some(5 as usize));
    assert_eq!(x.bytify(1), None);
}

#[test]
fn bytify_usize_big_endian() {
    let x: usize = 0x0102;
    assert_eq!(x.bytify(0), Some(0));
    assert_eq!(x.bytify(6), Some(1));
    assert_eq!(x.bytify(7), Some(2));
    assert_eq!(x.bytify(8), None);
}

#[test]
fn sign_bias_orders_negative_before_zero() {
    let minus_one: i32 = -1;
    let zero: i32 = 0;
    let d_neg = minus_one.bytify(0).unwrap();
    let d_zero = zero.bytify(0).unwrap();
    assert!(d_neg < d_zero);
    assert_eq!(d_neg, 127);
    assert_eq!(d_zero, 128);
    assert_eq!(minus_one.bytify(4), None);
}

#[test]
fn radix_sort_range_only() {
    let mut v: Vec<u8> = vec![9, 7, 3, 5, 1];
    orst::radix_sort(&mut v, 1, 4, 0);
    assert_eq!(v, vec![9, 3, 5, 7, 1]);
}

#[test]
fn radix_empty_and_single() {
    let mut empty: Vec<usize> = vec![];
    RadixSort.sort(&mut empty);
    assert_eq!(empty, vec![]);

    let mut one: Vec<i32> = vec![-3];
    RadixSort.sort(&mut one);
    assert_eq!(one, vec![-3]);
}

#[test]
fn signed_full_width() {
    let mut nums: Vec<i32> = vec![
        i32::MAX,
        -1,
        i32::MIN,
        0,
        65536,
        -65536,
        256,
        -256,
        1,
    ];
    RadixSort.sort(&mut nums);
    assert_eq!(
        nums,
        vec![i32::MIN, -65536, -256, -1, 0, 1, 256, 65536, i32::MAX]
    );
}
