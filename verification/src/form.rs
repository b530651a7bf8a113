//! Montgomery form, and how the two reduction domains agree: what the
//! Montgomery entry point leaves, converted out of Montgomery form, is what
//! the division entry point leaves.

use vstd::prelude::*;
use vstd::arithmetic::div_mod::lemma_mul_mod_noop_general;
use crate::base::{bit_length_of, block_count_of};
use crate::modpow::{modpow_spec, table_entry, windowed_result, lemma_table_entry_monomial};
use crate::montgomery::{
    is_montgomery_inverse, montgomery_reduced, radix_inverse, lemma_radix_inverse,
};
use crate::power::{monomial, nat_pow, lemma_nat_pow_adds, lemma_nat_pow_first};
use vstd::arithmetic::power2::{pow2, lemma_pow2_pos};

verus! {

/// The Montgomery form of `x` modulo `n` for the radix `r`.
pub open spec fn montgomery_form(x: nat, n: nat, r: nat) -> nat {
    (x * r) % n
}

/// Congruent factors give congruent products.
pub proof fn lemma_mul_congruent(a1: nat, a2: nat, b1: nat, b2: nat, n: nat)
    requires
        n > 0,
        a1 % n == a2 % n,
        b1 % n == b2 % n,
    ensures
        (a1 * b1) % n == (a2 * b2) % n,
{
    lemma_mul_mod_noop_general(a1 as int, b1 as int, n as int);
    lemma_mul_mod_noop_general(a2 as int, b2 as int, n as int);
}

/// Congruent bases give congruent powers.
pub proof fn lemma_pow_congruent(x: nat, y: nat, e: nat, n: nat)
    requires
        n > 0,
        x % n == y % n,
    ensures
        nat_pow(x, e) % n == nat_pow(y, e) % n,
    decreases e,
{
    if e > 0 {
        lemma_pow_congruent(x, y, (e - 1) as nat, n);
        lemma_mul_congruent(x, y, nat_pow(x, (e - 1) as nat), nat_pow(y, (e - 1) as nat), n);
    }
}

/// A power of a product is the product of the powers.
pub proof fn lemma_pow_of_product(x: nat, y: nat, e: nat)
    ensures
        nat_pow(x * y, e) == nat_pow(x, e) * nat_pow(y, e),
    decreases e,
{
    if e == 0 {
        assert(nat_pow(x * y, 0) == 1 && nat_pow(x, 0) == 1 && nat_pow(y, 0) == 1);
    } else {
        lemma_pow_of_product(x, y, (e - 1) as nat);
        let px = nat_pow(x, (e - 1) as nat);
        let py = nat_pow(y, (e - 1) as nat);
        assert((x * y) * (px * py) == (x * px) * (y * py)) by (nonlinear_arith);
    }
}

/// Converting into Montgomery form and back out gives the residue.
pub proof fn lemma_montgomery_round_trip(x: nat, n: nat, nquote: nat, r: nat)
    requires
        is_montgomery_inverse(n, nquote, r),
    ensures
        montgomery_reduced(montgomery_form(x, n, r), n, nquote, r) == x % n,
{
    let ri = radix_inverse(n, nquote, r);
    lemma_radix_inverse(n, nquote, r);
    lemma_mod_self(x * r, n);
    lemma_mul_congruent((x * r) % n, x * r, ri, ri, n);
    assert((x * r) * ri == x * (r * ri)) by (nonlinear_arith);
    lemma_mul_congruent(x, x, r * ri, 1, n);
    assert(x * 1 == x);
}

/// A residue is congruent to what it is the residue of.
pub proof fn lemma_mod_self(x: nat, n: nat)
    requires
        n > 0,
    ensures
        (x % n) % n == x % n,
{
    vstd::arithmetic::div_mod::lemma_mod_bound(x as int, n as int);
    vstd::arithmetic::div_mod::lemma_small_mod(x % n, n);
}

/// With the seed and the base in Montgomery form, a monomial whose power of
/// the radix inverse is one short of the other two exponents together is
/// the Montgomery form of the plain power.
pub proof fn lemma_montgomery_monomial(plain: nat, n: nat, nquote: nat, r: nat, z: nat, x: nat)
    requires
        is_montgomery_inverse(n, nquote, r),
        z + x >= 1,
    ensures
        monomial(
            montgomery_form(1, n, r),
            montgomery_form(plain, n, r),
            radix_inverse(n, nquote, r),
            n,
            z,
            x,
            (x + z - 1) as nat,
        ) == montgomery_form(nat_pow(plain, x), n, r),
{
    let ri = radix_inverse(n, nquote, r);
    let seed = montgomery_form(1, n, r);
    let base = montgomery_form(plain, n, r);
    let k = (x + z - 1) as nat;
    let s = nat_pow(seed, z);
    let p = nat_pow(base, x);
    let q = nat_pow(ri, k);
    let rz = nat_pow(r, z);
    let rx = nat_pow(r, x);
    let rk = nat_pow(r, k);
    let ax = nat_pow(plain, x);
    lemma_radix_inverse(n, nquote, r);
    // the seed's power
    assert(1 * r == r);
    lemma_mod_self(r, n);
    lemma_pow_congruent(seed, r, z, n);
    // the base's power
    lemma_mod_self(plain * r, n);
    lemma_pow_congruent(base, plain * r, x, n);
    lemma_pow_of_product(plain, r, x);
    // together
    lemma_mul_congruent(s, rz, p, ax * rx, n);
    lemma_mul_congruent(s * p, rz * (ax * rx), q, q, n);
    // r^z * r^x == r * r^k, and r^k * ri^k == (r * ri)^k
    lemma_nat_pow_adds(r, z, x);
    lemma_nat_pow_adds(r, 1, k);
    lemma_nat_pow_first(r);
    assert(z + x == 1 + k);
    lemma_pow_of_product(r, ri, k);
    let unit = nat_pow(r * ri, k);
    assert(rz * rx == r * rk);
    assert((rz * (ax * rx)) * q == (ax * r) * (rk * q)) by (nonlinear_arith)
        requires
            rz * rx == r * rk,
    ;
    // (r * ri)^k is congruent to 1
    lemma_pow_congruent(r * ri, 1, k, n);
    crate::power::lemma_nat_pow_of_one(k);
    lemma_mul_congruent(ax * r, ax * r, unit, 1, n);
    assert((ax * r) * 1 == ax * r);
}

/// The two domains agree on the result: for a nonzero exponent, the
/// Montgomery driver, run on the Montgomery forms of one and of the base,
/// leaves the Montgomery form of the power, and converting that out of
/// Montgomery form gives what plain exponentiation returns.
pub proof fn lemma_domains_agree(plain: nat, b: nat, n: nat, nquote: nat, r: nat)
    requires
        is_montgomery_inverse(n, nquote, r),
        b > 0,
    ensures
        windowed_result(
            montgomery_form(1, n, r),
            montgomery_form(plain, n, r),
            radix_inverse(n, nquote, r),
            n,
            b,
        ) == montgomery_form(nat_pow(plain, b), n, r),
        montgomery_reduced(
            windowed_result(
                montgomery_form(1, n, r),
                montgomery_form(plain, n, r),
                radix_inverse(n, nquote, r),
                n,
                b,
            ),
            n,
            nquote,
            r,
        ) == modpow_spec(plain, b, n),
{
    let z = pow2(7 * block_count_of(bit_length_of(b)));
    lemma_pow2_pos(7 * block_count_of(bit_length_of(b)));
    lemma_montgomery_monomial(plain, n, nquote, r, z, b);
    lemma_montgomery_round_trip(nat_pow(plain, b), n, nquote, r);
}

/// For a zero exponent the two domains agree where the modulus exceeds
/// one: the Montgomery accumulator keeps its seed, the Montgomery form of
/// one, which converts to one.
pub proof fn lemma_domains_agree_zero_exponent(plain: nat, n: nat, nquote: nat, r: nat)
    requires
        is_montgomery_inverse(n, nquote, r),
        n > 1,
    ensures
        montgomery_reduced(montgomery_form(1, n, r), n, nquote, r) == modpow_spec(plain, 0, n),
{
    lemma_montgomery_round_trip(1, n, nquote, r);
    vstd::arithmetic::div_mod::lemma_small_mod(1, n);
}

/// Plain exponentiation is the remainder of the power, except that a zero
/// exponent gives one also where the modulus is one.
pub proof fn lemma_modpow_is_power(a: nat, b: nat, m: nat)
    requires
        m > 0,
        b > 0 || m > 1,
    ensures
        modpow_spec(a, b, m) == nat_pow(a, b) % m,
        modpow_spec(a, b, m) < m,
{
    if b == 0 {
        vstd::arithmetic::div_mod::lemma_small_mod(1, m);
    } else {
        vstd::arithmetic::div_mod::lemma_mod_bound(nat_pow(a, b) as int, m as int);
    }
}

/// Any base to the power zero gives one.
pub proof fn lemma_modpow_zero_exponent(a: nat, m: nat)
    ensures
        modpow_spec(a, 0, m) == 1,
{
}

/// In the division domain, table entry `k` is congruent to the `k`-th
/// power of the base.
pub proof fn lemma_table_entry_plain(base: nat, n: nat, k: nat)
    requires
        n > 0,
        k >= 1,
    ensures
        table_entry(base, 1, n, k) == nat_pow(base, k) % n,
{
    crate::power::lemma_nat_pow_of_one((k - 1) as nat);
    let p = nat_pow(base, k);
    assert(p * 1 == p);
}

/// In the Montgomery domain, table entry `k` is the Montgomery form of the
/// `k`-th power of the plain base.
pub proof fn lemma_table_entry_montgomery(plain: nat, n: nat, nquote: nat, r: nat, k: nat)
    requires
        is_montgomery_inverse(n, nquote, r),
        k >= 1,
    ensures
        table_entry(montgomery_form(plain, n, r), radix_inverse(n, nquote, r), n, k)
            == montgomery_form(nat_pow(plain, k), n, r),
{
    lemma_montgomery_monomial(plain, n, nquote, r, 0, k);
    lemma_table_entry_monomial(
        montgomery_form(1, n, r),
        montgomery_form(plain, n, r),
        radix_inverse(n, nquote, r),
        n,
        k,
    );
}

} // verus!
