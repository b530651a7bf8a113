//! The mathematical model of a limb sequence, and the facts about it that the
//! limb-level routines are proved from.

use vstd::prelude::*;
use vstd::arithmetic::power2::*;

verus! {

/// Number of bits in one limb.
pub const LIMB_BITS: usize = 64;

/// The radix of the representation: one more than the largest limb.
pub open spec fn limb_base() -> nat {
    0x1_0000_0000_0000_0000
}

/// `limb_base()` raised to the power `n`: the weight of limb `n`.
pub open spec fn radix_pow(n: nat) -> nat
    decreases n,
{
    if n == 0 {
        1
    } else {
        limb_base() * radix_pow((n - 1) as nat)
    }
}

/// The number that a limb sequence stands for, least significant limb first.
pub open spec fn limbs_value(s: Seq<u64>) -> nat
    decreases s.len(),
{
    if s.len() == 0 {
        0
    } else {
        s[0] as nat + limb_base() * limbs_value(s.drop_first())
    }
}

/// Every limb weight is positive.
pub proof fn lemma_radix_pow_positive(n: nat)
    ensures
        radix_pow(n) > 0,
    decreases n,
{
    if n > 0 {
        lemma_radix_pow_positive((n - 1) as nat);
        assert(limb_base() * radix_pow((n - 1) as nat) > 0) by (nonlinear_arith)
            requires
                radix_pow((n - 1) as nat) > 0,
                limb_base() > 0,
        ;
    }
}

/// The weight of limb `i + j` is the product of the weights of `i` and `j`.
pub proof fn lemma_radix_pow_adds(i: nat, j: nat)
    ensures
        radix_pow(i + j) == radix_pow(i) * radix_pow(j),
    decreases i,
{
    if i == 0 {
        assert(radix_pow(0) == 1);
    } else {
        lemma_radix_pow_adds((i - 1) as nat, j);
        let b = limb_base();
        let x = radix_pow((i - 1) as nat);
        let y = radix_pow(j);
        assert(radix_pow(i + j) == b * radix_pow((i - 1 + j) as nat));
        assert(b * (x * y) == (b * x) * y) by (nonlinear_arith);
    }
}

/// The weight of limb `n` is two to the power `64 * n`.
pub proof fn lemma_radix_pow_is_pow2(n: nat)
    ensures
        radix_pow(n) == pow2(64 * n),
    decreases n,
{
    lemma2_to64();
    if n == 0 {
    } else {
        lemma_radix_pow_is_pow2((n - 1) as nat);
        lemma_pow2_adds(64, (64 * (n - 1)) as nat);
        assert(64 + 64 * (n - 1) == 64 * n);
    }
}

/// Appending a limb adds it at the weight of its index.
pub proof fn lemma_value_push(s: Seq<u64>, x: u64)
    ensures
        limbs_value(s.push(x)) == limbs_value(s) + x * radix_pow(s.len()),
    decreases s.len(),
{
    let b = limb_base();
    if s.len() == 0 {
        assert(s.push(x).drop_first() =~= Seq::<u64>::empty());
        assert(limbs_value(Seq::<u64>::empty()) == 0);
        assert(radix_pow(0) == 1);
    } else {
        let t = s.drop_first();
        assert(s.push(x).drop_first() =~= t.push(x));
        lemma_value_push(t, x);
        let p = radix_pow(t.len());
        assert(radix_pow(s.len()) == b * p);
        assert(b * (limbs_value(t) + x * p) == b * limbs_value(t) + x * (b * p))
            by (nonlinear_arith);
    }
}

/// The value of the first `i + 1` limbs, from that of the first `i`.
pub proof fn lemma_value_take_step(s: Seq<u64>, i: int)
    requires
        0 <= i < s.len(),
    ensures
        limbs_value(s.take(i + 1)) == limbs_value(s.take(i)) + s[i] * radix_pow(i as nat),
{
    assert(s.take(i + 1) =~= s.take(i).push(s[i]));
    lemma_value_push(s.take(i), s[i]);
}

/// A sequence of `n` limbs stands for a number below the weight of limb `n`.
pub proof fn lemma_value_bound(s: Seq<u64>)
    ensures
        limbs_value(s) < radix_pow(s.len()),
    decreases s.len(),
{
    if s.len() > 0 {
        let t = s.drop_first();
        lemma_value_bound(t);
        let b = limb_base();
        let p = radix_pow(t.len());
        assert(s[0] + b * limbs_value(t) < b * p) by (nonlinear_arith)
            requires
                s[0] < b,
                limbs_value(t) < p,
        ;
    }
}

/// Replacing limb `k` moves the value by the difference at that limb's weight.
pub proof fn lemma_value_update(s: Seq<u64>, k: int, x: u64)
    requires
        0 <= k < s.len(),
    ensures
        limbs_value(s.update(k, x)) + s[k] * radix_pow(k as nat) == limbs_value(s) + x
            * radix_pow(k as nat),
    decreases s.len(),
{
    let b = limb_base();
    if k == 0 {
        assert(s.update(k, x).drop_first() =~= s.drop_first());
        assert(radix_pow(0) == 1);
        assert(s.update(k, x)[0] == x);
        assert(limbs_value(s.update(k, x)) == x + b * limbs_value(s.drop_first()));
        let p0 = radix_pow(k as nat);
        assert(s[k] * p0 == s[k] && x * p0 == x) by (nonlinear_arith)
            requires
                p0 == 1,
        ;
    } else {
        let t = s.drop_first();
        assert(s.update(k, x).drop_first() =~= t.update(k - 1, x));
        lemma_value_update(t, k - 1, x);
        assert(t[k - 1] == s[k]);
        assert(s.update(k, x)[0] == s[0]);
        assert(limbs_value(s.update(k, x)) == s[0] + b * limbs_value(t.update(k - 1, x)));
        assert(limbs_value(s) == s[0] + b * limbs_value(t));
        let p = radix_pow((k - 1) as nat);
        assert(radix_pow(k as nat) == b * p);
        let pk = radix_pow(k as nat);
        assert(b * limbs_value(t.update(k - 1, x)) + s[k] * pk == b * limbs_value(t) + x * pk)
            by (nonlinear_arith)
            requires
                limbs_value(t.update(k - 1, x)) + s[k] * p == limbs_value(t) + x * p,
                pk == b * p,
        ;
    }
}

/// A sequence of zero limbs stands for zero.
pub proof fn lemma_value_zeros(s: Seq<u64>)
    requires
        forall|i: int| 0 <= i < s.len() ==> s[i] == 0,
    ensures
        limbs_value(s) == 0,
    decreases s.len(),
{
    if s.len() > 0 {
        lemma_value_zeros(s.drop_first());
    }
}

/// A fresh buffer of `n` zero limbs.
pub fn zeroed(n: usize) -> (w: Vec<u64>)
    ensures
        w.len() == n,
        forall|i: int| 0 <= i < n ==> w[i] == 0,
        limbs_value(w@) == 0,
{
    let mut w: Vec<u64> = Vec::with_capacity(n);
    let mut i: usize = 0;
    while i < n
        invariant
            i <= n,
            w.len() == i,
            forall|j: int| 0 <= j < i ==> w[j] == 0,
        decreases n - i,
    {
        w.push(0);
        i += 1;
    }
    proof {
        lemma_value_zeros(w@);
    }
    w
}

/// Splits a double-width word into its low and high limbs.
pub fn split_wide(x: u128) -> (r: (u64, u64))
    ensures
        x == r.0 + r.1 * limb_base(),
{
    let lo: u64 = (x % 0x1_0000_0000_0000_0000u128) as u64;
    let hi: u64 = (x / 0x1_0000_0000_0000_0000u128) as u64;
    (lo, hi)
}

/// A sequence's value splits at any limb into a low part and a weighted high part.
pub proof fn lemma_value_split(s: Seq<u64>, k: int)
    requires
        0 <= k <= s.len(),
    ensures
        limbs_value(s) == limbs_value(s.take(k)) + radix_pow(k as nat) * limbs_value(s.skip(k)),
    decreases k,
{
    let b = limb_base();
    if k == 0 {
        assert(s.take(0).len() == 0);
        assert(s.skip(0) =~= s);
        let p0 = radix_pow(0);
        let v = limbs_value(s);
        assert(p0 * v == v) by (nonlinear_arith)
            requires
                p0 == 1,
        ;
    } else {
        let t = s.drop_first();
        lemma_value_split(t, k - 1);
        assert(s.take(k).drop_first() =~= t.take(k - 1));
        assert(s.skip(k) =~= t.skip(k - 1));
        assert(s.take(k)[0] == s[0]);
        let lo = limbs_value(t.take(k - 1));
        let hi = limbs_value(t.skip(k - 1));
        let p = radix_pow((k - 1) as nat);
        let pk = radix_pow(k as nat);
        assert(pk == b * p);
        assert(limbs_value(s.take(k)) == s[0] + b * lo);
        assert(limbs_value(s) == s[0] + b * limbs_value(t));
        assert(b * (lo + p * hi) == b * lo + pk * hi) by (nonlinear_arith)
            requires
                pk == b * p,
        ;
    }
}

/// A length and a value determine the limbs: two sequences of one length
/// that stand for one number are the same sequence.
pub proof fn lemma_value_injective(s: Seq<u64>, t: Seq<u64>)
    requires
        s.len() == t.len(),
        limbs_value(s) == limbs_value(t),
    ensures
        s == t,
    decreases s.len(),
{
    if s.len() > 0 {
        let b = limb_base() as int;
        let s0 = s[0] as int;
        let t0 = t[0] as int;
        let sv = limbs_value(s.drop_first()) as int;
        let tv = limbs_value(t.drop_first()) as int;
        assert(sv == tv && s0 == t0) by (nonlinear_arith)
            requires
                s0 + b * sv == t0 + b * tv,
                0 <= s0 < b,
                0 <= t0 < b,
        ;
        lemma_value_injective(s.drop_first(), t.drop_first());
        assert forall|i: int| 0 <= i < s.len() implies s[i] == t[i] by {
            if i > 0 {
                assert(s[i] == s.drop_first()[i - 1]);
                assert(t[i] == t.drop_first()[i - 1]);
            }
        }
    }
    assert(s =~= t);
}

/// Copies limbs `from .. to` of `s` into a buffer of their own.
pub fn copy_range(s: &[u64], from: usize, to: usize) -> (w: Vec<u64>)
    requires
        from <= to <= s.len(),
    ensures
        w@ == s@.subrange(from as int, to as int),
{
    let mut w: Vec<u64> = Vec::with_capacity(to - from);
    let mut i: usize = from;
    while i < to
        invariant
            from <= i <= to,
            to <= s.len(),
            w@ == s@.subrange(from as int, i as int),
        decreases to - i,
    {
        w.push(s[i]);
        proof {
            assert(w@ =~= s@.subrange(from as int, i + 1));
        }
        i += 1;
    }
    w
}

/// The limbs of `a`, followed by zero limbs up to length `n`.
pub fn padded(a: &[u64], n: usize) -> (w: Vec<u64>)
    requires
        a.len() <= n,
    ensures
        w.len() == n,
        limbs_value(w@) == limbs_value(a@),
{
    let mut w = copy_range(a, 0, a.len());
    proof {
        assert(a@.subrange(0, a.len() as int) =~= a@);
    }
    while w.len() < n
        invariant
            w.len() <= n,
            limbs_value(w@) == limbs_value(a@),
        decreases n - w.len(),
    {
        proof {
            lemma_value_push(w@, 0);
            assert(0 * radix_pow(w@.len()) == 0);
        }
        w.push(0);
    }
    w
}

/// The number one in `n` limbs.
pub fn one(n: usize) -> (w: Vec<u64>)
    requires
        n >= 1,
    ensures
        w.len() == n,
        limbs_value(w@) == 1,
{
    let mut w = zeroed(n);
    proof {
        lemma_value_update(w@, 0, 1);
        assert(radix_pow(0) == 1);
    }
    w.set(0, 1);
    w
}

} // verus!
