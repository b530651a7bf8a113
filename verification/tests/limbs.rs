use limb_modpow::addsub::{add_n, sub_n};
use limb_modpow::base::{bit_at, bit_length, window_value};
use limb_modpow::div::divrem;
use limb_modpow::limb::{copy_range, one, padded, split_wide, zeroed};
use limb_modpow::montgomery::lomul;
use limb_modpow::mul::{addmul_1, mul, mul_1, sqr};

#[test]
fn zeroed_is_all_zero() {
    assert_eq!(zeroed(0), Vec::<u64>::new());
    assert_eq!(zeroed(3), vec![0, 0, 0]);
}

#[test]
fn split_wide_halves() {
    assert_eq!(split_wide(0), (0, 0));
    assert_eq!(split_wide((7u128 << 64) | 9), (9, 7));
    assert_eq!(split_wide(u128::MAX), (u64::MAX, u64::MAX));
}

#[test]
fn copy_range_takes_the_middle() {
    assert_eq!(copy_range(&[1, 2, 3, 4], 1, 3), vec![2, 3]);
    assert_eq!(copy_range(&[1, 2, 3, 4], 2, 2), Vec::<u64>::new());
}

#[test]
fn padded_and_one() {
    assert_eq!(padded(&[5], 3), vec![5, 0, 0]);
    assert_eq!(padded(&[], 2), vec![0, 0]);
    assert_eq!(one(1), vec![1]);
    assert_eq!(one(3), vec![1, 0, 0]);
}

#[test]
fn add_n_carries() {
    assert_eq!(add_n(&[1, 2], &[3, 4], 0), (vec![4, 6], 0));
    assert_eq!(add_n(&[u64::MAX, u64::MAX], &[1, 0], 0), (vec![0, 0], 1));
    assert_eq!(add_n(&[u64::MAX], &[u64::MAX], 1), (vec![u64::MAX], 1));
    assert_eq!(add_n(&[], &[], 1), (vec![], 1));
}

#[test]
fn sub_n_borrows() {
    assert_eq!(sub_n(&[4, 6], &[3, 4], 0), (vec![1, 2], 0));
    assert_eq!(sub_n(&[0, 1], &[1, 0], 0), (vec![u64::MAX, 0], 0));
    assert_eq!(sub_n(&[0, 0], &[1, 0], 0), (vec![u64::MAX, u64::MAX], 1));
    assert_eq!(sub_n(&[5], &[5], 1), (vec![u64::MAX], 1));
}

#[test]
fn mul_1_returns_the_high_limb() {
    assert_eq!(mul_1(&[3, 4], 2, 5), (vec![15, 20], 0));
    assert_eq!(mul_1(&[u64::MAX, u64::MAX], 2, u64::MAX), (vec![1, u64::MAX], u64::MAX - 1));
    assert_eq!(mul_1(&[3, 4], 1, 5), (vec![15], 0));
}

#[test]
fn addmul_1_adds_at_the_offset() {
    let mut w = vec![1u64, 2, 3, 4];
    let carry = addmul_1(&mut w, 1, &[10, 20], 2, 3);
    assert_eq!(carry, 0);
    assert_eq!(w, vec![1, 32, 63, 4]);
    let mut v = vec![u64::MAX, u64::MAX];
    let carry = addmul_1(&mut v, 0, &[u64::MAX, u64::MAX], 2, u64::MAX);
    assert_eq!(v, vec![0, u64::MAX]);
    assert_eq!(carry, u64::MAX);
}

#[test]
fn mul_full_product() {
    assert_eq!(mul(&[3], &[5]), vec![15, 0]);
    assert_eq!(mul(&[u64::MAX], &[u64::MAX]), vec![1, u64::MAX - 1]);
    assert_eq!(mul(&[0, 1], &[0, 1]), vec![0, 0, 1, 0]);
    assert_eq!(mul(&[u64::MAX, u64::MAX], &[u64::MAX, u64::MAX]), vec![1, 0, u64::MAX - 1, u64::MAX]);
    assert_eq!(mul(&[], &[7]), vec![0]);
}

#[test]
fn sqr_is_self_product() {
    assert_eq!(sqr(&[u64::MAX, 1]), mul(&[u64::MAX, 1], &[u64::MAX, 1]));
    assert_eq!(sqr(&[12]), vec![144, 0]);
}

#[test]
fn lomul_keeps_the_low_half() {
    let full = mul(&[u64::MAX, 7, 9], &[5, u64::MAX, 3]);
    assert_eq!(lomul(&[u64::MAX, 7, 9, 1, 1, 1], &[5, u64::MAX, 3], 3), full[..3].to_vec());
    assert_eq!(lomul(&[6], &[7], 1), vec![42]);
}

#[test]
fn divrem_quotients() {
    assert_eq!(divrem(&[100], &[7]), (vec![14], vec![2]));
    assert_eq!(divrem(&[0, 1], &[97]).0, vec![((1u128 << 64) / 97) as u64, 0]);
    assert_eq!(divrem(&[5, 0, 0], &[7, 1]), (vec![0, 0, 0], vec![5, 0]));
    assert_eq!(divrem(&[u64::MAX, u64::MAX], &[u64::MAX]), (vec![1, 1], vec![0]));
    assert_eq!(divrem(&[3, 9], &[1]), (vec![3, 9], vec![0]));
    assert_eq!(divrem(&[6], &[0, 1]), (vec![0], vec![6, 0]));
}

#[test]
fn rem_by_long_division() {
    assert_eq!(divrem(&[100], &[7]).1, vec![2]);
    assert_eq!(divrem(&[0, 1], &[97]).1, vec![61]);
    assert_eq!(divrem(&[5, 0, 0], &[7, 1]).1, vec![5, 0]);
    assert_eq!(divrem(&[u64::MAX, u64::MAX], &[u64::MAX]).1, vec![0]);
    assert_eq!(divrem(&[3, 9], &[1]).1, vec![0]);
    assert_eq!(divrem(&[], &[5]).1, vec![0]);
    let x: u128 = 0xffff_eeee_dddd_cccc_bbbb_aaaa_9999_8888;
    let m: u128 = 0x1_0000_0000_0000_0123;
    let r = x % m;
    assert_eq!(divrem(&[x as u64, (x >> 64) as u64], &[m as u64, (m >> 64) as u64]).1, vec![r as u64, (r >> 64) as u64]);
}

#[test]
fn bit_at_reads_across_limbs() {
    let s = [0b101u64, 1u64 << 63];
    assert!(bit_at(&s, 0));
    assert!(!bit_at(&s, 1));
    assert!(bit_at(&s, 2));
    assert!(!bit_at(&s, 64));
    assert!(bit_at(&s, 127));
}

#[test]
fn bit_length_skips_zero_limbs() {
    assert_eq!(bit_length(&[]), 0);
    assert_eq!(bit_length(&[0, 0]), 0);
    assert_eq!(bit_length(&[1]), 1);
    assert_eq!(bit_length(&[10]), 4);
    assert_eq!(bit_length(&[u64::MAX]), 64);
    assert_eq!(bit_length(&[0, 1]), 65);
    assert_eq!(bit_length(&[5, 3, 0, 0]), 66);
}

#[test]
fn window_value_takes_seven_bits() {
    // 10 = 0b1010: one window
    assert_eq!(window_value(&[10], 4, 0), 10);
    assert_eq!(window_value(&[10], 4, 1), 0);
    // 0x3fff = fourteen ones: two full windows
    assert_eq!(window_value(&[0x3fff], 14, 0), 127);
    assert_eq!(window_value(&[0x3fff], 14, 1), 127);
    // bits 63..69 straddle two limbs
    assert_eq!(window_value(&[1u64 << 63, 0b101], 67, 9), 0b1011);
    // 300 = 0b100101100: the top window is partial
    assert_eq!(window_value(&[300], 9, 0), 300 % 128);
    assert_eq!(window_value(&[300], 9, 1), 2);
}
