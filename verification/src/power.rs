//! Powers of natural numbers and of residues, as the exponentiation driver
//! reasons about them.

use vstd::prelude::*;
use vstd::arithmetic::div_mod::lemma_mul_mod_noop_general;

verus! {

/// `a` raised to the power `e`.
pub open spec fn nat_pow(a: nat, e: nat) -> nat
    decreases e,
{
    if e == 0 {
        1
    } else {
        a * nat_pow(a, (e - 1) as nat)
    }
}

/// The residue modulo `n` of `seed^z * base^x * rinv^y`.
///
/// Every value that the windowed driver holds has this shape: `seed` is what
/// the accumulator held on entry, `base` the table's generator, and `rinv`
/// the factor that each reduction contributes (1 for plain division).
pub open spec fn monomial(seed: nat, base: nat, rinv: nat, n: nat, z: nat, x: nat, y: nat) -> nat {
    (nat_pow(seed, z) * nat_pow(base, x) * nat_pow(rinv, y)) % n
}

/// Exponents add where powers of one base multiply.
pub proof fn lemma_nat_pow_adds(a: nat, x: nat, y: nat)
    ensures
        nat_pow(a, x + y) == nat_pow(a, x) * nat_pow(a, y),
    decreases x,
{
    if x == 0 {
        assert(nat_pow(a, 0) == 1);
        let p = nat_pow(a, y);
        assert(1 * p == p);
    } else {
        lemma_nat_pow_adds(a, (x - 1) as nat, y);
        let u = nat_pow(a, (x - 1) as nat);
        let v = nat_pow(a, y);
        assert(nat_pow(a, x + y) == a * nat_pow(a, (x - 1 + y) as nat));
        assert(a * (u * v) == (a * u) * v) by (nonlinear_arith);
    }
}

/// Every power of one is one.
pub proof fn lemma_nat_pow_of_one(e: nat)
    ensures
        nat_pow(1, e) == 1,
    decreases e,
{
    if e > 0 {
        lemma_nat_pow_of_one((e - 1) as nat);
    }
}

/// The first two powers: one, and the base itself.
pub proof fn lemma_nat_pow_first(a: nat)
    ensures
        nat_pow(a, 1) == a,
        nat_pow(a, 0) == 1,
{
    assert(nat_pow(a, 0) == 1);
    assert(nat_pow(a, 1) == a * nat_pow(a, 0));
    assert(a * 1 == a);
}

/// The middle factors of a product of two products may change places.
proof fn lemma_mul_interchange(a: int, b: int, c: int, d: int)
    ensures
        (a * b) * (c * d) == (a * c) * (b * d),
{
    assert((a * b) * (c * d) == (a * c) * (b * d)) by (nonlinear_arith);
}

/// Reducing the product of two values of monomial shape, with one more
/// factor `rinv`, gives the monomial whose exponents are the sums.
pub proof fn lemma_monomial_product(
    seed: nat,
    base: nat,
    rinv: nat,
    n: nat,
    u: nat,
    v: nat,
    z1: nat,
    x1: nat,
    y1: nat,
    z2: nat,
    x2: nat,
    y2: nat,
)
    requires
        n > 0,
        u % n == monomial(seed, base, rinv, n, z1, x1, y1),
        v % n == monomial(seed, base, rinv, n, z2, x2, y2),
    ensures
        (u * v * rinv) % n == monomial(seed, base, rinv, n, z1 + z2, x1 + x2, y1 + y2 + 1),
{
    let s1 = nat_pow(seed, z1) as int;
    let s2 = nat_pow(seed, z2) as int;
    let b1 = nat_pow(base, x1) as int;
    let b2 = nat_pow(base, x2) as int;
    let r1 = nat_pow(rinv, y1) as int;
    let r2 = nat_pow(rinv, y2) as int;
    let ri = rinv as int;
    let nn = n as int;
    let m1 = s1 * b1 * r1;
    let m2 = s2 * b2 * r2;
    let uu = u as int;
    let vv = v as int;
    lemma_nat_pow_adds(seed, z1, z2);
    lemma_nat_pow_adds(base, x1, x2);
    lemma_nat_pow_adds(rinv, y1, y2);
    lemma_nat_pow_adds(rinv, y1 + y2, 1);
    lemma_nat_pow_first(rinv);
    lemma_mul_mod_noop_general(uu, vv, nn);
    lemma_mul_mod_noop_general(m1, m2, nn);
    assert((uu * vv) % nn == (m1 * m2) % nn);
    lemma_mul_mod_noop_general(uu * vv, ri, nn);
    lemma_mul_mod_noop_general(m1 * m2, ri, nn);
    assert((uu * vv * ri) % nn == (m1 * m2 * ri) % nn);
    lemma_mul_interchange(s1 * b1, r1, s2 * b2, r2);
    lemma_mul_interchange(s1, b1, s2, b2);
    let sb = (s1 * s2) * (b1 * b2);
    let rr = r1 * r2;
    assert(m1 * m2 == sb * rr);
    assert((sb * rr) * ri == sb * (rr * ri)) by (nonlinear_arith);
}

/// With seed 1 and reductions that contribute no factor, a monomial is a
/// plain power of the base.
pub proof fn lemma_monomial_plain(base: nat, n: nat, z: nat, x: nat, y: nat)
    requires
        n > 0,
    ensures
        monomial(1, base, 1, n, z, x, y) == nat_pow(base, x) % n,
{
    lemma_nat_pow_of_one(z);
    lemma_nat_pow_of_one(y);
    let p = nat_pow(base, x);
    assert(1 * p * 1 == p);
}

} // verus!
