//! Multiplication of limb sequences: by one limb, accumulating at an offset,
//! and the full product.

use vstd::prelude::*;
use crate::limb::{
    limb_base, limbs_value, radix_pow, split_wide, zeroed, lemma_radix_pow_adds,
    lemma_value_push, lemma_value_take_step, lemma_value_update,
};

verus! {

/// The product of two limbs and two more limbs added to it fits a double-width word.
proof fn lemma_wide_fits(x: u64, y: u64, c: u64, d: u64)
    ensures
        x * y + c + d <= u128::MAX,
        x * y <= u128::MAX,
{
    assert(x * y <= 0xffff_ffff_ffff_ffff * 0xffff_ffff_ffff_ffff) by (nonlinear_arith)
        requires
            0 <= x <= 0xffff_ffff_ffff_ffff,
            0 <= y <= 0xffff_ffff_ffff_ffff,
    ;
}

/// Multiplies the first `n` limbs of `a` by the limb `b`; returns the low `n`
/// limbs of the product and the limb carried out of them.
pub fn mul_1(a: &[u64], n: usize, b: u64) -> (res: (Vec<u64>, u64))
    requires
        n <= a.len(),
    ensures
        res.0.len() == n,
        limbs_value(res.0@) + res.1 * radix_pow(n as nat) == limbs_value(a@.take(n as int)) * b,
{
    let mut w: Vec<u64> = Vec::with_capacity(n);
    let mut carry: u64 = 0;
    let mut i: usize = 0;
    proof {
        assert(a@.take(0).len() == 0);
        assert(radix_pow(0) == 1);
        let z = limbs_value(a@.take(0));
        assert(z == 0);
        assert(z * b == 0) by (nonlinear_arith)
            requires
                z == 0,
        ;
    }
    while i < n
        invariant
            i <= n,
            n <= a.len(),
            w.len() == i,
            limbs_value(w@) + carry * radix_pow(i as nat) == limbs_value(a@.take(i as int)) * b,
        decreases n - i,
    {
        proof {
            lemma_wide_fits(a[i as int], b, carry, 0);
        }
        let wide: u128 = a[i] as u128 * b as u128 + carry as u128;
        let (lo, hi) = split_wide(wide);
        proof {
            lemma_value_push(w@, lo);
            lemma_value_take_step(a@, i as int);
            assert(a@.take(n as int).take(i as int) =~= a@.take(i as int));
            let p = radix_pow(i as nat);
            let bb = limb_base();
            let ai = a[i as int];
            let va = limbs_value(a@.take(i as int));
            assert(radix_pow((i + 1) as nat) == bb * p);
            assert(lo * p + hi * (bb * p) + va * b == (va + ai * p) * b + carry * p)
                by (nonlinear_arith)
                requires
                    lo + hi * bb == ai * b + carry,
            ;
        }
        w.push(lo);
        carry = hi;
        i += 1;
    }
    (w, carry)
}

/// Adds the product of the first `n` limbs of `a` and the limb `b` into `w`,
/// starting at limb `offset`; returns the limb carried out of limb
/// `offset + n - 1`. Limbs of `w` outside that range keep their value.
pub fn addmul_1(w: &mut Vec<u64>, offset: usize, a: &[u64], n: usize, b: u64) -> (carry: u64)
    requires
        n <= a.len(),
        offset + n <= old(w).len(),
    ensures
        final(w).len() == old(w).len(),
        limbs_value(final(w)@) + carry * radix_pow((offset + n) as nat) == limbs_value(old(w)@)
            + limbs_value(a@.take(n as int)) * b * radix_pow(offset as nat),
        forall|k: int|
            0 <= k < old(w).len() && !(offset <= k < offset + n) ==> final(w)[k] == old(w)[k],
{
    let ghost w0 = w@;
    let mut carry: u64 = 0;
    let mut i: usize = 0;
    proof {
        assert(a@.take(0).len() == 0);
        let z = limbs_value(a@.take(0));
        assert(z == 0);
        assert(z * b * radix_pow(offset as nat) == 0) by (nonlinear_arith)
            requires
                z == 0,
        ;
    }
    while i < n
        invariant
            i <= n,
            n <= a.len(),
            offset + n <= w.len(),
            w.len() == w0.len(),
            limbs_value(w@) + carry * radix_pow((offset + i) as nat) == limbs_value(w0)
                + limbs_value(a@.take(i as int)) * b * radix_pow(offset as nat),
            forall|k: int| 0 <= k < w.len() && !(offset <= k < offset + i) ==> w[k] == w0[k],
        decreases n - i,
    {
        let k = offset + i;
        let prev = w[k];
        proof {
            lemma_wide_fits(a[i as int], b, carry, prev);
        }
        let wide: u128 = a[i] as u128 * b as u128 + carry as u128 + prev as u128;
        let (lo, hi) = split_wide(wide);
        proof {
            lemma_value_update(w@, k as int, lo);
            lemma_value_take_step(a@, i as int);
            lemma_radix_pow_adds(offset as nat, i as nat);
            let pk = radix_pow(k as nat);
            let po = radix_pow(offset as nat);
            let pi = radix_pow(i as nat);
            let bb = limb_base();
            let ai = a[i as int];
            let va = limbs_value(a@.take(i as int));
            let v1 = limbs_value(w@.update(k as int, lo));
            let v = limbs_value(w@);
            let v0 = limbs_value(w0);
            assert(radix_pow((k + 1) as nat) == bb * pk);
            let prod = ai * b;
            assert(lo * pk + hi * (bb * pk) == prod * pk + carry * pk + prev * pk)
                by (nonlinear_arith)
                requires
                    lo + hi * bb == prod + carry + prev,
            ;
            assert(prod * pk == ai * pi * b * po) by (nonlinear_arith)
                requires
                    pk == po * pi,
                    prod == ai * b,
            ;
            assert((va + ai * pi) * b * po == va * b * po + ai * pi * b * po)
                by (nonlinear_arith);
            assert(v1 + hi * (bb * pk) == v0 + (va + ai * pi) * b * po);
        }
        w.set(k, lo);
        carry = hi;
        i += 1;
    }
    carry
}

/// The full product of `a` and `b`, in `a.len() + b.len()` limbs.
pub fn mul(a: &[u64], b: &[u64]) -> (w: Vec<u64>)
    requires
        a.len() + b.len() <= usize::MAX,
    ensures
        w.len() == a.len() + b.len(),
        limbs_value(w@) == limbs_value(a@) * limbs_value(b@),
{
    let an = a.len();
    let bn = b.len();
    let mut w = zeroed(an + bn);
    let mut j: usize = 0;
    proof {
        assert(b@.take(0).len() == 0);
        let z = limbs_value(b@.take(0));
        assert(z == 0);
        assert(limbs_value(a@) * z == 0) by (nonlinear_arith)
            requires
                z == 0,
        ;
        assert(a@.take(an as int) =~= a@);
    }
    while j < bn
        invariant
            j <= bn,
            an == a.len(),
            bn == b.len(),
            w.len() == an + bn,
            limbs_value(w@) == limbs_value(a@) * limbs_value(b@.take(j as int)),
            forall|k: int| j + an <= k < an + bn ==> w[k] == 0,
            a@.take(an as int) == a@,
        decreases bn - j,
    {
        let ghost v = limbs_value(w@);
        let carry = addmul_1(&mut w, j, a, an, b[j]);
        proof {
            lemma_value_update(w@, (j + an) as int, carry);
            lemma_value_take_step(b@, j as int);
            let va = limbs_value(a@);
            let vb = limbs_value(b@.take(j as int));
            let bj = b[j as int];
            let pj = radix_pow(j as nat);
            let pt = radix_pow((j + an) as nat);
            let v1 = limbs_value(w@);
            let v2 = limbs_value(w@.update((j + an) as int, carry));
            assert(w[(j + an) as int] == 0);
            assert(v2 == va * (vb + bj * pj)) by (nonlinear_arith)
                requires
                    v2 + 0 * pt == v1 + carry * pt,
                    v1 + carry * pt == v + va * bj * pj,
                    v == va * vb,
            ;
        }
        w.set(j + an, carry);
        j += 1;
    }
    proof {
        assert(b@.take(bn as int) =~= b@);
    }
    w
}

/// The square of `a`, in `2 * a.len()` limbs.
pub fn sqr(a: &[u64]) -> (w: Vec<u64>)
    requires
        2 * a.len() <= usize::MAX,
    ensures
        w.len() == 2 * a.len(),
        limbs_value(w@) == limbs_value(a@) * limbs_value(a@),
{
    self::mul(a, a)
}

} // verus!
