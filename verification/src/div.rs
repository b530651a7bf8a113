//! Division with remainder of one limb sequence by another, by bitwise long
//! division.

use vstd::prelude::*;
use vstd::arithmetic::power2::{pow2, lemma_pow2_pos, lemma_pow2_unfold, lemma2_to64};
use vstd::arithmetic::div_mod::{
    lemma_basic_div, lemma_div_denominator, lemma_fundamental_div_mod,
    lemma_fundamental_div_mod_converse, lemma_mod_bound, lemma_small_mod,
};
use crate::addsub::{add_n, sub_n};
use crate::base::bit_at;
use crate::limb::{limbs_value, radix_pow, zeroed, lemma_radix_pow_is_pow2, lemma_value_bound};

verus! {

/// One step of long division: from the quotient and remainder of `half`
/// by `m` and one more bit, the quotient and remainder of `2 * half + bit`.
pub proof fn lemma_divrem_step(q: int, half: int, bit: int, m: int, doubled: int)
    requires
        0 < m,
        0 <= half,
        0 <= bit <= 1,
        q == 2 * half + bit,
        doubled == 2 * (half % m) + bit,
    ensures
        0 <= doubled < 2 * m,
        q % m == (if doubled >= m { doubled - m } else { doubled }),
        q / m == 2 * (half / m) + (if doubled >= m { 1int } else { 0int }),
{
    lemma_mod_bound(half, m);
    lemma_fundamental_div_mod(half, m);
    let k = half / m;
    assert(q == (2 * k) * m + doubled) by (nonlinear_arith)
        requires
            q == 2 * half + bit,
            half == m * k + half % m,
            doubled == 2 * (half % m) + bit,
    ;
    if doubled >= m {
        assert(q == (2 * k + 1) * m + (doubled - m)) by (nonlinear_arith)
            requires
                q == (2 * k) * m + doubled,
        ;
        lemma_fundamental_div_mod_converse(q, m, 2 * k + 1, doubled - m);
    } else {
        lemma_fundamental_div_mod_converse(q, m, 2 * k, doubled);
    }
}

/// A quotient by a positive divisor is no larger than the dividend.
proof fn lemma_quotient_below(x: int, d: int)
    requires
        0 <= x,
        0 < d,
    ensures
        0 <= x / d <= x,
{
    lemma_fundamental_div_mod(x, d);
    lemma_mod_bound(x, d);
    let q = x / d;
    let r = x % d;
    assert(0 <= q <= x) by (nonlinear_arith)
        requires
            x == d * q + r,
            0 <= r < d,
            0 <= x,
            0 < d,
    ;
}

/// Divides `x` by `m`: the quotient in as many limbs as `x` has, and the
/// remainder in as many as `m` has.
pub fn divrem(x: &[u64], m: &[u64]) -> (res: (Vec<u64>, Vec<u64>))
    requires
        limbs_value(m@) > 0,
        64 * x.len() <= usize::MAX,
    ensures
        res.0.len() == x.len(),
        res.1.len() == m.len(),
        limbs_value(res.0@) == limbs_value(x@) / limbs_value(m@),
        limbs_value(res.1@) == limbs_value(x@) % limbs_value(m@),
{
    let mut quo = zeroed(x.len());
    let mut r = zeroed(m.len());
    let mut p: usize = 64 * x.len();
    let ghost xv = limbs_value(x@) as int;
    let ghost mv = limbs_value(m@) as int;
    proof {
        lemma_value_bound(x@);
        lemma_radix_pow_is_pow2(x@.len());
        lemma_basic_div(xv, pow2(p as nat) as int);
        lemma_small_mod(0, mv as nat);
        lemma_basic_div(0, mv);
    }
    while p > 0
        invariant
            p <= 64 * x.len(),
            quo.len() == x.len(),
            r.len() == m.len(),
            xv == limbs_value(x@),
            mv == limbs_value(m@),
            mv > 0,
            limbs_value(quo@) == (xv / (pow2(p as nat) as int)) / mv,
            limbs_value(r@) == (xv / (pow2(p as nat) as int)) % mv,
        decreases p,
    {
        p -= 1;
        let bit: u64 = if bit_at(x, p) { 1 } else { 0 };
        let (w, carry) = add_n(r.as_slice(), r.as_slice(), bit);
        let (d, borrow) = sub_n(w.as_slice(), m, 0);
        let fits = carry == 1 || borrow == 0;
        let quo_bit: u64 = if fits { 1 } else { 0 };
        let (quo_next, quo_carry) = add_n(quo.as_slice(), quo.as_slice(), quo_bit);
        proof {
            let half = xv / (pow2((p + 1) as nat) as int);
            let q = xv / (pow2(p as nat) as int);
            let big = radix_pow(m@.len()) as int;
            let wide = radix_pow(x@.len()) as int;
            let doubled = 2 * limbs_value(r@) + bit;
            lemma_pow2_pos(p as nat);
            lemma_pow2_pos((p + 1) as nat);
            lemma_pow2_unfold((p + 1) as nat);
            lemma_div_denominator(xv, pow2(p as nat) as int, 2);
            assert(pow2(p as nat) * 2 == pow2((p + 1) as nat));
            assert(q / 2 == half);
            lemma_fundamental_div_mod(q, 2);
            assert(q % 2 == bit);
            lemma_divrem_step(q, half, bit as int, mv, doubled);
            lemma_value_bound(m@);
            lemma_value_bound(w@);
            lemma_value_bound(d@);
            assert(carry * big == (if carry == 1 { big } else { 0 })) by (nonlinear_arith)
                requires
                    carry <= 1,
            ;
            assert(borrow * big == (if borrow == 1 { big } else { 0 })) by (nonlinear_arith)
                requires
                    borrow <= 1,
            ;
            assert(fits == (doubled >= mv));
            // the quotient never outgrows the dividend's limbs
            lemma_quotient_below(xv, pow2(p as nat) as int);
            lemma_quotient_below(q, mv);
            lemma_value_bound(x@);
            lemma_value_bound(quo_next@);
            assert(quo_carry * wide == (if quo_carry == 1 { wide } else { 0 }))
                by (nonlinear_arith)
                requires
                    quo_carry <= 1,
            ;
            assert(quo_carry == 0);
        }
        if fits {
            r = d;
        } else {
            r = w;
        }
        quo = quo_next;
    }
    proof {
        lemma2_to64();
        assert(xv / 1 == xv);
        assert(xv / (pow2(0) as int) == xv);
    }
    (quo, r)
}

} // verus!
