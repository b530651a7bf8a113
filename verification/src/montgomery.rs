//! Montgomery reduction: a double-width product is brought back to a single
//! width by multiplications and one conditional subtraction, with no division.

use vstd::prelude::*;
use vstd::arithmetic::div_mod::{
    lemma_fundamental_div_mod, lemma_fundamental_div_mod_converse_mod,
    lemma_mod_multiples_vanish, lemma_mul_mod_noop_right, lemma_small_mod,
};
use crate::addsub::{add_n, sub_n};
use crate::limb::{
    copy_range, limbs_value, radix_pow, lemma_radix_pow_adds, lemma_radix_pow_positive,
    lemma_value_bound, lemma_value_split, lemma_value_take_step,
};
use crate::mul::{addmul_1, mul_1, sqr};

verus! {

/// `nquote` is the Montgomery inverse of `n` for the radix `r`:
/// `n * nquote` is one less than a multiple of `r`.
pub open spec fn is_montgomery_inverse(n: nat, nquote: nat, r: nat) -> bool {
    r > 0 && n > 0 && (n * nquote) % r == r - 1
}

/// The inverse of the radix `r` modulo `n`, read off the Montgomery inverse:
/// `r * radix_inverse(n, nquote, r)` leaves remainder 1 modulo `n`
/// (remainder 0 where `n` is 1).
pub open spec fn radix_inverse(n: nat, nquote: nat, r: nat) -> nat {
    ((n * nquote + 1) / r) % n
}

/// What Montgomery reduction makes of `t`: `t` divided by the radix, modulo `n`.
pub open spec fn montgomery_reduced(t: nat, n: nat, nquote: nat, r: nat) -> nat {
    (t * radix_inverse(n, nquote, r)) % n
}

/// The radix inverse undoes the radix modulo `n`.
pub proof fn lemma_radix_inverse(n: nat, nquote: nat, r: nat)
    requires
        is_montgomery_inverse(n, nquote, r),
    ensures
        (r * radix_inverse(n, nquote, r)) % n == 1nat % n,
        n * nquote + 1 == r * ((n * nquote + 1) / r),
{
    let nn = n as int;
    let rr = r as int;
    let prod = (n * nquote) as int;
    let full = (prod + 1) / rr;
    lemma_fundamental_div_mod(prod, rr);
    let k = prod / rr;
    assert(prod + 1 == (k + 1) * rr + 0) by (nonlinear_arith)
        requires
            prod == rr * k + (rr - 1),
    ;
    lemma_fundamental_div_mod_converse_mod(prod + 1, rr, k + 1, 0);
    lemma_fundamental_div_mod(prod + 1, rr);
    assert(prod + 1 == rr * full);
    lemma_mul_mod_noop_right(rr, full, nn);
    assert(rr * full == nn * (nquote as int) + 1) by (nonlinear_arith)
        requires
            rr * full == prod + 1,
            prod == nn * nquote,
    ;
    lemma_mod_multiples_vanish(nquote as int, 1, nn);
}

/// The step from the sum `t + m * n == h * r` to what `h` is modulo `n`.
pub proof fn lemma_redc_quotient(t: nat, n: nat, nquote: nat, r: nat, m: nat, h: nat)
    requires
        is_montgomery_inverse(n, nquote, r),
        t + m * n == h * r,
    ensures
        h % n == montgomery_reduced(t, n, nquote, r),
{
    let nn = n as int;
    let full = ((n * nquote + 1) / r) as int;
    lemma_radix_inverse(n, nquote, r);
    let hh = h as int;
    let tt = t as int;
    let mm = m as int;
    let qq = nquote as int;
    let rr = r as int;
    // h * (n * nquote + 1) == t * full + m * n * full
    let unit = rr * full;
    assert(hh * unit == tt * full + nn * (mm * full)) by (nonlinear_arith)
        requires
            tt + mm * nn == hh * rr,
            unit == rr * full,
    ;
    assert(hh * unit == nn * (hh * qq) + hh) by (nonlinear_arith)
        requires
            unit == nn * qq + 1,
    ;
    assert(nn * (mm * full - hh * qq) == nn * (mm * full) - nn * (hh * qq))
        by (nonlinear_arith);
    assert(nn * (mm * full - hh * qq) + tt * full == hh);
    lemma_mod_multiples_vanish(mm * full - hh * qq, tt * full, nn);
    lemma_mul_mod_noop_right(tt, full, nn);
}

/// The low `r_limbs` limbs of the product of the low `r_limbs` limbs of `a`
/// and `b`; limbs of the product above those are never computed.
pub fn lomul(a: &[u64], b: &[u64], r_limbs: usize) -> (w: Vec<u64>)
    requires
        r_limbs <= a.len(),
        r_limbs == b.len(),
        r_limbs >= 1,
    ensures
        w.len() == r_limbs,
        limbs_value(w@) == (limbs_value(a@.take(r_limbs as int)) * limbs_value(b@)) % radix_pow(
            r_limbs as nat,
        ),
{
    let ghost av = limbs_value(a@.take(r_limbs as int)) as int;
    let ghost big = radix_pow(r_limbs as nat) as int;
    let (mut w, carry) = mul_1(a, r_limbs, b[0]);
    let ghost mut k: int = carry as int;
    let mut i: usize = 1;
    proof {
        lemma_value_take_step(b@, 0);
        assert(b@.take(0).len() == 0);
        assert(radix_pow(0) == 1);
        let b0 = b@[0] as int;
        let p0 = radix_pow(0) as int;
        assert(b0 * p0 == b0) by (nonlinear_arith)
            requires
                p0 == 1,
        ;
        assert(limbs_value(b@.take(1)) == b0);
    }
    while i < r_limbs
        invariant
            1 <= i <= r_limbs,
            r_limbs <= a.len(),
            r_limbs == b.len(),
            w.len() == r_limbs,
            av == limbs_value(a@.take(r_limbs as int)),
            big == radix_pow(r_limbs as nat),
            limbs_value(w@) + k * big == av * limbs_value(b@.take(i as int)),
        decreases r_limbs - i,
    {
        let ghost v = limbs_value(w@) as int;
        let carry = addmul_1(&mut w, i, a, r_limbs - i, b[i]);
        proof {
            let low = a@.take(r_limbs as int);
            let cut = (r_limbs - i) as int;
            lemma_value_split(low, cut);
            assert(low.take(cut) =~= a@.take(cut));
            lemma_radix_pow_adds(cut as nat, i as nat);
            lemma_value_take_step(b@, i as int);
            let al = limbs_value(a@.take(cut)) as int;
            let ah = limbs_value(low.skip(cut)) as int;
            let pc = radix_pow(cut as nat) as int;
            let pi = radix_pow(i as nat) as int;
            let bi = b[i as int] as int;
            let bv = limbs_value(b@.take(i as int)) as int;
            let v1 = limbs_value(w@) as int;
            let k1 = k + carry + ah * bi;
            assert(av * bi * pi == al * bi * pi + (ah * bi) * big) by (nonlinear_arith)
                requires
                    av == al + pc * ah,
                    big == pc * pi,
            ;
            assert(k1 * big == k * big + carry * big + (ah * bi) * big) by (nonlinear_arith)
                requires
                    k1 == k + carry + ah * bi,
            ;
            assert(av * (bv + bi * pi) == av * bv + av * bi * pi) by (nonlinear_arith);
            assert(v1 + k1 * big == av * (bv + bi * pi));
            k = k1;
        }
        i += 1;
    }
    proof {
        assert(b@.take(r_limbs as int) =~= b@);
        lemma_value_bound(w@);
        lemma_radix_pow_positive(r_limbs as nat);
        let wv = limbs_value(w@) as int;
        let x = av * limbs_value(b@);
        assert(x == k * big + wv);
        lemma_fundamental_div_mod_converse_mod(x, big, k, wv);
    }
    w
}

/// Montgomery reduction of the double-width `t` modulo `n`.
///
/// A multiple of `n` is added to `t` that clears its low half; the high half
/// of the sum is the result, after at most one subtraction of `n`. The sum may
/// carry out of its double width: the carry counts as part of the high half
/// when the subtraction is decided, so the result is below `n` for every
/// modulus that fills its limbs.
pub fn montgomery_redc(t: &[u64], n: &[u64], nquote: &[u64]) -> (w: Vec<u64>)
    requires
        n.len() >= 1,
        t.len() == 2 * n.len(),
        nquote.len() == n.len(),
        is_montgomery_inverse(
            limbs_value(n@),
            limbs_value(nquote@),
            radix_pow(n.len() as nat),
        ),
        limbs_value(t@) < limbs_value(n@) * radix_pow(n.len() as nat),
    ensures
        w.len() == n.len(),
        limbs_value(w@) < limbs_value(n@),
        limbs_value(w@) == montgomery_reduced(
            limbs_value(t@),
            limbs_value(n@),
            limbs_value(nquote@),
            radix_pow(n.len() as nat),
        ),
{
    let r_limbs = n.len();
    let ghost big = radix_pow(r_limbs as nat) as int;
    let ghost tv = limbs_value(t@) as int;
    let ghost nv = limbs_value(n@) as int;
    let ghost qv = limbs_value(nquote@) as int;
    // m <- (t mod r) * nquote mod r
    let m = lomul(t, nquote, r_limbs);
    // mn <- m * n
    let mn = crate::mul::mul(m.as_slice(), n);
    // x <- t + mn
    let (x, carry) = add_n(t, mn.as_slice(), 0);
    // w <- x / r, less n where that is not below n
    let high = copy_range(x.as_slice(), r_limbs, 2 * r_limbs);
    let (d, borrow) = sub_n(high.as_slice(), n, 0);
    proof {
        let mv = limbs_value(m@) as int;
        let xv = limbs_value(x@) as int;
        let tl = limbs_value(t@.take(r_limbs as int)) as int;
        let th = limbs_value(t@.skip(r_limbs as int)) as int;
        let xl = limbs_value(x@.take(r_limbs as int)) as int;
        let hv = limbs_value(high@) as int;
        let dv = limbs_value(d@) as int;
        lemma_radix_pow_positive(r_limbs as nat);
        lemma_radix_pow_adds(r_limbs as nat, r_limbs as nat);
        lemma_value_split(t@, r_limbs as int);
        lemma_value_split(x@, r_limbs as int);
        assert(x@.skip(r_limbs as int) =~= high@);
        lemma_value_bound(x@.take(r_limbs as int));
        lemma_value_bound(m@);
        lemma_value_bound(high@);
        lemma_value_bound(d@);
        lemma_value_bound(n@);
        // the low half of the sum vanishes
        lemma_fundamental_div_mod(tl * qv, big);
        lemma_fundamental_div_mod(nv * qv, big);
        let k1 = (tl * qv) / big;
        let k2 = (nv * qv) / big;
        let c = carry as int;
        assert(xv + c * (big * big) == tv + mv * nv);
        let g = th + tl * k2 + tl - k1 * nv - c * big - hv;
        let pq = nv * qv;
        assert(mv * nv == tl * pq - big * (k1 * nv)) by (nonlinear_arith)
            requires
                tl * qv == big * k1 + mv,
                pq == nv * qv,
        ;
        assert(tl * pq == big * (tl * k2) + big * tl - tl) by (nonlinear_arith)
            requires
                pq == big * k2 + (big - 1),
        ;
        assert(c * (big * big) == big * (c * big)) by (nonlinear_arith);
        assert(xl == big * th + big * (tl * k2) + big * tl - big * (k1 * nv) - big * hv - big * (c
            * big));
        assert(xl == g * big + 0) by (nonlinear_arith)
            requires
                xl == big * th + big * (tl * k2) + big * tl - big * (k1 * nv) - big * hv - big * (c
                    * big),
                g == th + tl * k2 + tl - k1 * nv - c * big - hv,
        ;
        lemma_fundamental_div_mod_converse_mod(xl, big, g, 0);
        lemma_small_mod(xl as nat, big as nat);
        assert(xl == 0);
        let h = hv + c * big;
        assert(tv + mv * nv == h * big) by (nonlinear_arith)
            requires
                xv + c * (big * big) == tv + mv * nv,
                xv == big * hv,
                h == hv + c * big,
        ;
        assert(h < 2 * nv) by (nonlinear_arith)
            requires
                tv + mv * nv == h * big,
                tv < nv * big,
                0 <= mv < big,
                0 < nv,
                0 < big,
        ;
        assert(h >= 0) by (nonlinear_arith)
            requires
                h == hv + c * big,
                hv >= 0,
                c >= 0,
                big > 0,
        ;
        lemma_redc_quotient(tv as nat, nv as nat, qv as nat, big as nat, mv as nat, h as nat);
        assert(c * big == (if c == 1 { big } else { 0 })) by (nonlinear_arith)
            requires
                0 <= c <= 1,
        ;
        let bo = borrow as int;
        assert(bo * big == (if bo == 1 { big } else { 0 })) by (nonlinear_arith)
            requires
                0 <= bo <= 1,
        ;
        if h >= nv {
            lemma_fundamental_div_mod_converse_mod(h, nv, 1, h - nv);
        } else {
            lemma_small_mod(h as nat, nv as nat);
        }
    }
    if carry == 1 || borrow == 0 {
        d
    } else {
        high
    }
}

/// The Montgomery product of `a` and `b` modulo `n`.
pub fn montgomery_mul(a: &[u64], b: &[u64], n: &[u64], nquote: &[u64]) -> (w: Vec<u64>)
    requires
        n.len() >= 1,
        2 * n.len() <= usize::MAX,
        a.len() == n.len(),
        b.len() == n.len(),
        nquote.len() == n.len(),
        is_montgomery_inverse(
            limbs_value(n@),
            limbs_value(nquote@),
            radix_pow(n.len() as nat),
        ),
        limbs_value(a@) < limbs_value(n@),
        limbs_value(b@) < limbs_value(n@),
    ensures
        w.len() == n.len(),
        limbs_value(w@) < limbs_value(n@),
        limbs_value(w@) == montgomery_reduced(
            limbs_value(a@) * limbs_value(b@),
            limbs_value(n@),
            limbs_value(nquote@),
            radix_pow(n.len() as nat),
        ),
{
    // t <- a * b
    let t = crate::mul::mul(a, b);
    proof {
        lemma_value_bound(n@);
        lemma_product_below(
            limbs_value(a@),
            limbs_value(b@),
            limbs_value(n@),
            radix_pow(n.len() as nat),
        );
    }
    montgomery_redc(t.as_slice(), n, nquote)
}

/// The Montgomery square of `a` modulo `n`.
pub fn montgomery_sqr(a: &[u64], n: &[u64], nquote: &[u64]) -> (w: Vec<u64>)
    requires
        n.len() >= 1,
        2 * n.len() <= usize::MAX,
        a.len() == n.len(),
        nquote.len() == n.len(),
        is_montgomery_inverse(
            limbs_value(n@),
            limbs_value(nquote@),
            radix_pow(n.len() as nat),
        ),
        limbs_value(a@) < limbs_value(n@),
    ensures
        w.len() == n.len(),
        limbs_value(w@) < limbs_value(n@),
        limbs_value(w@) == montgomery_reduced(
            limbs_value(a@) * limbs_value(a@),
            limbs_value(n@),
            limbs_value(nquote@),
            radix_pow(n.len() as nat),
        ),
{
    // t <- a * a
    let t = sqr(a);
    proof {
        lemma_value_bound(n@);
        lemma_product_below(
            limbs_value(a@),
            limbs_value(a@),
            limbs_value(n@),
            radix_pow(n.len() as nat),
        );
    }
    montgomery_redc(t.as_slice(), n, nquote)
}

/// The product of two residues below `n` is below `n` times any bound on `n`.
proof fn lemma_product_below(a: nat, b: nat, n: nat, r: nat)
    requires
        a < n,
        b < n,
        n < r,
    ensures
        a * b < n * r,
{
    assert(a * b < n * r) by (nonlinear_arith)
        requires
            a < n,
            b < n,
            n < r,
    ;
}

} // verus!
