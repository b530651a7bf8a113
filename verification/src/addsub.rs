//! Addition and subtraction of equally long limb sequences.

use vstd::prelude::*;
use crate::limb::{limb_base, limbs_value, radix_pow, split_wide, lemma_value_push, lemma_value_take_step};

verus! {

/// Adds `a`, `b` and an incoming carry; returns the sum's limbs and the carry out.
pub fn add_n(a: &[u64], b: &[u64], carry_in: u64) -> (res: (Vec<u64>, u64))
    requires
        a.len() == b.len(),
        carry_in <= 1,
    ensures
        res.0.len() == a.len(),
        res.1 <= 1,
        limbs_value(res.0@) + res.1 * radix_pow(a.len() as nat) == limbs_value(a@) + limbs_value(
            b@,
        ) + carry_in,
{
    let n = a.len();
    let mut w: Vec<u64> = Vec::with_capacity(n);
    let mut carry: u64 = carry_in;
    let mut i: usize = 0;
    proof {
        assert(a@.take(0).len() == 0 && b@.take(0).len() == 0);
        assert(radix_pow(0) == 1);
    }
    while i < n
        invariant
            i <= n,
            n == a.len(),
            n == b.len(),
            w.len() == i,
            carry <= 1,
            limbs_value(w@) + carry * radix_pow(i as nat) == limbs_value(a@.take(i as int))
                + limbs_value(b@.take(i as int)) + carry_in,
        decreases n - i,
    {
        let sum: u128 = a[i] as u128 + b[i] as u128 + carry as u128;
        let (lo, hi) = split_wide(sum);
        proof {
            lemma_value_push(w@, lo);
            lemma_value_take_step(a@, i as int);
            lemma_value_take_step(b@, i as int);
            let p = radix_pow(i as nat);
            let bb = limb_base();
            assert(radix_pow((i + 1) as nat) == bb * p);
            assert(lo * p + hi * (bb * p) == a[i as int] * p + b[i as int] * p + carry * p)
                by (nonlinear_arith)
                requires
                    lo + hi * bb == a[i as int] + b[i as int] + carry,
            ;
        }
        w.push(lo);
        carry = hi;
        i += 1;
    }
    proof {
        assert(a@.take(n as int) =~= a@);
        assert(b@.take(n as int) =~= b@);
    }
    (w, carry)
}

/// Subtracts `b` and an incoming borrow from `a`; returns the difference's
/// limbs and the borrow out, which is 1 exactly when `a` was too small.
pub fn sub_n(a: &[u64], b: &[u64], borrow_in: u64) -> (res: (Vec<u64>, u64))
    requires
        a.len() == b.len(),
        borrow_in <= 1,
    ensures
        res.0.len() == a.len(),
        res.1 <= 1,
        limbs_value(res.0@) + limbs_value(b@) + borrow_in == limbs_value(a@) + res.1 * radix_pow(
            a.len() as nat,
        ),
{
    let n = a.len();
    let mut w: Vec<u64> = Vec::with_capacity(n);
    let mut borrow: u64 = borrow_in;
    let mut i: usize = 0;
    proof {
        assert(a@.take(0).len() == 0 && b@.take(0).len() == 0);
        assert(radix_pow(0) == 1);
    }
    while i < n
        invariant
            i <= n,
            n == a.len(),
            n == b.len(),
            w.len() == i,
            borrow <= 1,
            limbs_value(w@) + limbs_value(b@.take(i as int)) + borrow_in == limbs_value(
                a@.take(i as int),
            ) + borrow * radix_pow(i as nat),
        decreases n - i,
    {
        let wide: u128 = 0x1_0000_0000_0000_0000u128 + a[i] as u128 - b[i] as u128
            - borrow as u128;
        let (lo, hi) = split_wide(wide);
        proof {
            lemma_value_push(w@, lo);
            lemma_value_take_step(a@, i as int);
            lemma_value_take_step(b@, i as int);
            let p = radix_pow(i as nat);
            let bb = limb_base();
            assert(radix_pow((i + 1) as nat) == bb * p);
            assert(lo * p + b[i as int] * p + borrow * p == a[i as int] * p + (1 - hi) * (bb * p))
                by (nonlinear_arith)
                requires
                    lo + hi * bb == bb + a[i as int] - b[i as int] - borrow,
            ;
        }
        w.push(lo);
        borrow = 1 - hi;
        i += 1;
    }
    proof {
        assert(a@.take(n as int) =~= a@);
        assert(b@.take(n as int) =~= b@);
    }
    (w, borrow)
}

} // verus!
