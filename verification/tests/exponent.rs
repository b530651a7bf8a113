use limb_modpow::div::divrem;
use limb_modpow::mem::TmpAllocator;
use limb_modpow::modpow::{build_table, modpow, modpow_by_montgomery, windowed_pow, Reducer};
use limb_modpow::montgomery::{montgomery_mul, montgomery_redc, montgomery_sqr};

fn to_limbs(x: u128) -> Vec<u64> {
    vec![x as u64, (x >> 64) as u64]
}

fn from_limbs(s: &[u64]) -> u128 {
    let mut v: u128 = 0;
    for (i, limb) in s.iter().enumerate() {
        if *limb != 0 {
            assert!(i < 2);
            v |= (*limb as u128) << (64 * i);
        }
    }
    v
}

// (a * b) mod m by doubling; m below 2^126.
fn ref_mulmod(a: u128, b: u128, m: u128) -> u128 {
    let mut acc: u128 = 0;
    let mut x = a % m;
    let mut y = b;
    while y > 0 {
        if y & 1 == 1 {
            acc = (acc + x) % m;
        }
        x = (x + x) % m;
        y >>= 1;
    }
    acc
}

// Square and multiply, one bit at a time, no windows.
fn ref_powmod(a: u128, b: u128, m: u128) -> u128 {
    let mut result: u128 = 1 % m;
    let mut i = 128;
    while i > 0 {
        i -= 1;
        result = ref_mulmod(result, result, m);
        if (b >> i) & 1 == 1 {
            result = ref_mulmod(result, a, m);
        }
    }
    result
}

fn plain(a: &[u64], b: &[u64], m: &[u64]) -> Vec<u64> {
    let mut w: Vec<u64> = Vec::new();
    modpow(&mut w, m, a, b);
    w
}

// The Montgomery inverse of an odd single-limb modulus.
fn nquote_1(n: u64) -> u64 {
    let mut inv: u64 = n;
    for _ in 0..6 {
        inv = inv.wrapping_mul(2u64.wrapping_sub(n.wrapping_mul(inv)));
    }
    assert_eq!(n.wrapping_mul(inv), 1);
    inv.wrapping_neg()
}

// The Montgomery inverse of an odd two-limb modulus.
fn nquote_2(n: u128) -> u128 {
    let mut inv: u128 = n;
    for _ in 0..7 {
        inv = inv.wrapping_mul(2u128.wrapping_sub(n.wrapping_mul(inv)));
    }
    assert_eq!(n.wrapping_mul(inv), 1);
    inv.wrapping_neg()
}

// x * R mod n, where R is the radix of as many limbs as n has.
fn to_montgomery(x: &[u64], n: &[u64]) -> Vec<u64> {
    let mut shifted = vec![0u64; n.len()];
    shifted.extend_from_slice(x);
    divrem(&shifted, n).1
}

fn from_montgomery(x: &[u64], n: &[u64], nquote: &[u64]) -> Vec<u64> {
    let mut t = x.to_vec();
    t.resize(2 * n.len(), 0);
    montgomery_redc(&t, n, nquote)
}

fn by_montgomery(a: &[u64], b: &[u64], n: &[u64], nquote: &[u64]) -> Vec<u64> {
    let mut one = vec![0u64; n.len()];
    one[0] = 1;
    let mut a_full = a.to_vec();
    a_full.resize(n.len(), 0);
    let a_reduced = divrem(&a_full, n).1;
    let a_mont = to_montgomery(&a_reduced, n);
    let mut w = to_montgomery(&one, n);
    modpow_by_montgomery(&mut w, n, nquote, &a_mont, b);
    from_montgomery(&w, n, nquote)
}

#[test]
fn five_to_the_tenth_mod_97_by_division() {
    // 5^10 = 9765625 = 100676 * 97 + 53
    assert_eq!(plain(&[5], &[10], &[97]), vec![53]);
}

#[test]
fn five_to_the_tenth_mod_97_by_montgomery() {
    let n = [97u64];
    let nq = [nquote_1(97)];
    assert_eq!(by_montgomery(&[5], &[10], &n, &nq), vec![53]);
}

#[test]
fn montgomery_result_is_in_montgomery_form() {
    let n = [97u64];
    let nq = [nquote_1(97)];
    let a = to_montgomery(&[5], &n);
    let mut w = to_montgomery(&[1], &n);
    modpow_by_montgomery(&mut w, &n, &nq, &a, &[10]);
    assert_eq!(w, to_montgomery(&[53], &n));
    // 2^64 mod 97 = 61, so the Montgomery form of 53 is 53 * 61 mod 97 = 32
    assert_eq!(w, vec![32]);
}

#[test]
fn zero_exponent_gives_one() {
    assert_eq!(plain(&[5], &[0], &[97]), vec![1]);
    assert_eq!(plain(&[5], &[], &[97]), vec![1]);
    assert_eq!(plain(&[0], &[0, 0], &[97, 3]), vec![1, 0]);
    assert_eq!(plain(&[96], &[0], &[2]), vec![1]);
}

#[test]
fn zero_exponent_leaves_montgomery_accumulator() {
    let n = [97u64];
    let nq = [nquote_1(97)];
    let a = to_montgomery(&[5], &n);
    let mut w = vec![42u64];
    modpow_by_montgomery(&mut w, &n, &nq, &a, &[0]);
    assert_eq!(w, vec![42]);
}

#[test]
fn modulus_one_gives_zero() {
    assert_eq!(plain(&[5], &[10], &[1]), vec![0]);
    assert_eq!(plain(&[0], &[1], &[1]), vec![0]);
    assert_eq!(plain(&[7], &[u64::MAX, 3], &[1]), vec![0]);
}

#[test]
fn zero_base_gives_zero() {
    assert_eq!(plain(&[0], &[1], &[97]), vec![0]);
    assert_eq!(plain(&[], &[12345], &[97]), vec![0]);
    assert_eq!(plain(&[0, 0], &[3, 1], &[97, 5]), vec![0, 0]);
}

#[test]
fn exponent_one_reduces_the_base() {
    assert_eq!(plain(&[100], &[1], &[97]), vec![3]);
    assert_eq!(plain(&[5], &[1], &[97]), vec![5]);
}

#[test]
fn even_modulus() {
    assert_eq!(plain(&[3], &[5], &[16]), vec![243 % 16]);
    assert_eq!(plain(&[7], &[100], &[1 << 20]), vec![ref_powmod(7, 100, 1 << 20) as u64]);
}

#[test]
fn exponent_lengths_around_the_window() {
    let m: u128 = 1_000_000_007;
    for bits in 1..40u32 {
        let b: u128 = (1u128 << bits) - 1;
        let top: u128 = 1u128 << (bits - 1);
        assert_eq!(from_limbs(&plain(&[3], &to_limbs(b), &[m as u64])), ref_powmod(3, b, m));
        assert_eq!(from_limbs(&plain(&[3], &to_limbs(top), &[m as u64])), ref_powmod(3, top, m));
    }
}

#[test]
fn two_limb_operands_match_square_and_multiply() {
    let m: u128 = (1u128 << 64) + 13;
    let a: u128 = 0x1234_5678_9abc_def0_0fed_cba9;
    let b: u128 = 0x0003_0000_0000_0000_0001_0203_0405_0607;
    let w = plain(&to_limbs(a % m), &to_limbs(b), &to_limbs(m));
    assert_eq!(w.len(), 2);
    assert_eq!(from_limbs(&w), ref_powmod(a, b, m));
}

#[test]
fn many_values_match_square_and_multiply() {
    let mut x: u64 = 0x9e37_79b9_7f4a_7c15;
    for _ in 0..12 {
        x ^= x << 13;
        x ^= x >> 7;
        x ^= x << 17;
        let m = (x >> 3) | 1;
        x ^= x << 13;
        x ^= x >> 7;
        x ^= x << 17;
        let a = x % m;
        x ^= x << 13;
        x ^= x >> 7;
        x ^= x << 17;
        let b = x >> (x % 50);
        let want = ref_powmod(a as u128, b as u128, m as u128) as u64;
        assert_eq!(plain(&[a], &[b], &[m]), vec![want]);
        if b > 0 {
            assert_eq!(by_montgomery(&[a], &[b], &[m], &[nquote_1(m)]), vec![want]);
        }
    }
}

#[test]
fn montgomery_and_division_agree_on_two_limbs() {
    let m: u128 = (0x7fff_ffff_ffff_fff1u128 << 64) | 0x0123_4567_89ab_cdef;
    let a: u128 = 0x0fed_cba9_8765_4321_1122_3344_5566_7788;
    let b: u128 = 0x0000_0000_0000_0001_8000_0000_0000_0001;
    let nq = nquote_2(m);
    let by_div = plain(&to_limbs(a), &to_limbs(b), &to_limbs(m));
    let by_mont = by_montgomery(&to_limbs(a), &to_limbs(b), &to_limbs(m), &to_limbs(nq));
    assert_eq!(by_div, by_mont);
    assert_eq!(from_limbs(&by_div), ref_powmod(a, b, m));
}

#[test]
fn montgomery_with_a_modulus_that_fills_its_limbs() {
    let m: u64 = u64::MAX - 58;
    let want = ref_powmod(123_456_789, 987_654_321, m as u128) as u64;
    assert_eq!(by_montgomery(&[123_456_789], &[987_654_321], &[m], &[nquote_1(m)]), vec![want]);
    assert_eq!(plain(&[123_456_789], &[987_654_321], &[m]), vec![want]);
}

#[test]
fn repeated_calls_give_identical_limbs() {
    let m = to_limbs((1u128 << 100) + 277);
    let a = to_limbs(0xdead_beef_cafe_f00d_1234);
    let b = to_limbs(0xffff_0000_ffff_0000_ffff);
    let first = plain(&a, &b, &m);
    let second = plain(&a, &b, &m);
    assert_eq!(first, second);
    let mut stale = vec![9u64; 7];
    modpow(&mut stale, &m, &a, &b);
    assert_eq!(stale, first);
}

#[test]
fn division_table_holds_the_powers() {
    let m = [1_000_003u64];
    let a = [12_345u64];
    let red = Reducer { modulus: &m, nquote: None };
    let mut tmp = TmpAllocator::new();
    let table = build_table(&mut tmp, &red, &a);
    assert_eq!(table.len(), 128);
    let mut want: u128 = 1;
    for i in 0..128 {
        assert_eq!(table[i].len, 1);
        assert_eq!(tmp.slice(table[i]).to_vec(), vec![want as u64]);
        want = want * 12_345 % 1_000_003;
    }
}

#[test]
fn montgomery_table_holds_the_powers() {
    let n = [1_000_003u64];
    let nq = [nquote_1(1_000_003)];
    let a = to_montgomery(&[12_345], &n);
    let red = Reducer { modulus: &n, nquote: Some(&nq) };
    let mut tmp = TmpAllocator::new();
    let table = build_table(&mut tmp, &red, &a);
    assert_eq!(table.len(), 128);
    assert_eq!(tmp.slice(table[0]).to_vec(), vec![1]);
    let mut want: u128 = 12_345;
    for i in 1..128 {
        assert_eq!(from_montgomery(tmp.slice(table[i]), &n, &nq), vec![want as u64]);
        want = want * 12_345 % 1_000_003;
    }
}

#[test]
fn windowed_pow_applies_windows_to_the_seed() {
    // by division, a seed s ends as s^(2^(7 * blocks)) * a^b
    let m = [1_000_003u64];
    let a = [10u64];
    let red = Reducer { modulus: &m, nquote: None };
    let mut tmp = TmpAllocator::new();
    let table = build_table(&mut tmp, &red, &a);
    let mut w = vec![3u64];
    windowed_pow(&mut w, &red, &tmp, &table, &[5]);
    let seed = ref_powmod(3, 128, 1_000_003);
    assert_eq!(w, vec![(seed * 100_000 % 1_000_003) as u64]);
}

#[test]
fn montgomery_mul_and_sqr() {
    let n = [97u64];
    let nq = [nquote_1(97)];
    let x = to_montgomery(&[20], &n);
    let y = to_montgomery(&[30], &n);
    assert_eq!(montgomery_mul(&x, &y, &n, &nq), to_montgomery(&[600 % 97], &n));
    assert_eq!(montgomery_sqr(&x, &n, &nq), to_montgomery(&[400 % 97], &n));
}

#[test]
fn montgomery_redc_divides_by_the_radix() {
    let n = [97u64];
    let nq = [nquote_1(97)];
    // 2^64 * 5 reduces to 5
    assert_eq!(montgomery_redc(&[0, 5], &n, &nq), vec![5]);
    // 61 = 2^64 mod 97 reduces to 1
    assert_eq!(from_montgomery(&[61], &n, &nq), vec![1]);
    // 1 reduces to the inverse of 2^64 mod 97, which is 35
    assert_eq!(from_montgomery(&[1], &n, &nq), vec![35]);
    assert_eq!(montgomery_redc(&[0, 0], &n, &nq), vec![0]);
}

#[test]
fn montgomery_accumulator_seeded_with_plain_one() {
    // One block of seven squarings and one multiplication: the seed 1 picks
    // up a factor 1/R with each of the 128 reductions, the base 5^10 only
    // with 10 - 1 + 128 of them. The inverse of 2^64 mod 97 is 35.
    let n = [97u64];
    let nq = [nquote_1(97)];
    let mut w = vec![1u64];
    modpow_by_montgomery(&mut w, &n, &nq, &[5], &[10]);
    let want = ref_mulmod(ref_powmod(5, 10, 97), ref_powmod(35, 10 + 128 - 1, 97), 97);
    assert_eq!(w, vec![want as u64]);
}

#[test]
fn carry_out_of_the_montgomery_sum() {
    // a modulus above half the radix makes t + m * n overflow two limbs
    let m: u64 = u64::MAX - 58;
    let nq = [nquote_1(m)];
    let x = [m - 1];
    let got = montgomery_mul(&x, &x, &[m], &nq);
    // (m - 1)^2 / R = 1 / R mod m, and times R^2 / R that is 1
    let r_mod = (1u128 << 64) % (m as u128);
    let r_squared = (r_mod * r_mod % (m as u128)) as u64;
    let back = montgomery_mul(&got, &[r_squared], &[m], &nq);
    assert_eq!(back, vec![1]);
}

#[test]
fn table_leaves_earlier_regions_alone() {
    let m = [1_000_003u64, 5];
    let a = [12_345u64, 0];
    let red = Reducer { modulus: &m, nquote: None };
    let mut tmp = TmpAllocator::new();
    let mine = tmp.allocate(3);
    tmp.store(mine, &[7, 8, 9]);
    let table = build_table(&mut tmp, &red, &a);
    assert_eq!(tmp.slice(mine).to_vec(), vec![7, 8, 9]);
    assert_eq!(table[0].start, 3);
    assert_eq!(table[127].start + table[127].len, 3 + 128 * 2);
    assert_eq!(tmp.slice(table[1]).to_vec(), vec![12_345, 0]);
}
