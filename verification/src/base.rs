//! Base-2 views of a limb sequence: single bits, the bit length, and the
//! fixed-width windows that the exponentiation driver consumes.

use vstd::prelude::*;
use vstd::arithmetic::power2::{pow2, lemma_pow2_adds, lemma_pow2_pos, lemma_pow2_unfold, lemma2_to64, lemma_pow2_strictly_increases};
use vstd::arithmetic::div_mod::{
    lemma_basic_div, lemma_div_denominator, lemma_fundamental_div_mod,
    lemma_hoist_over_denominator, lemma_mod_breakdown, lemma_mod_multiples_vanish,
    lemma_mod_bound,
};
use vstd::bits::lemma_u64_shr_is_div;
use crate::limb::{
    limb_base, limbs_value, radix_pow, lemma_radix_pow_is_pow2, lemma_value_bound,
    lemma_value_take_step, LIMB_BITS,
};

verus! {

/// Width of an exponent window, in bits.
pub const WINDOW_BITS: usize = 7;

/// Number of values a window can take.
pub const WINDOW_SIZE: usize = 128;

/// Bit `p` of the number `v`.
pub open spec fn bit_of(v: nat, p: nat) -> bool {
    (v / pow2(p)) % 2 == 1
}

/// The number formed by the `WINDOW_BITS` bits of `v` from bit `7 * i` upward.
pub open spec fn window_of(v: nat, i: nat) -> nat {
    (v / pow2(7 * i)) % 128
}

/// The number of bits needed to write `v`: zero for zero.
pub open spec fn is_bit_length(v: nat, bl: nat) -> bool {
    v < pow2(bl) && (bl > 0 ==> pow2((bl - 1) as nat) <= v)
}

/// The bit length of `v`, counted by halving.
pub open spec fn bit_length_of(v: nat) -> nat
    decreases v,
{
    if v == 0 {
        0
    } else {
        1 + bit_length_of(v / 2)
    }
}

/// Only one number of bits fits a value: the one that halving counts.
pub proof fn lemma_bit_length_unique(v: nat, bl: nat)
    requires
        is_bit_length(v, bl),
    ensures
        bl == bit_length_of(v),
    decreases v,
{
    lemma2_to64();
    if v == 0 {
        if bl > 0 {
            lemma_pow2_pos((bl - 1) as nat);
        }
    } else {
        assert(bl > 0);
        let h = (bl - 1) as nat;
        lemma_pow2_unfold(bl);
        if h > 0 {
            lemma_pow2_unfold(h);
        }
        lemma_bit_length_unique(v / 2, h);
    }
}

/// Number of windows needed to cover `bl` bits.
pub open spec fn block_count_of(bl: nat) -> nat {
    (bl + 6) / 7
}

/// A number below `2^p` has no bit at `p` or above.
pub proof fn lemma_high_bits_clear(v: nat, bl: nat, p: nat)
    requires
        v < pow2(bl),
        bl <= p,
    ensures
        v / pow2(p) == 0,
        !bit_of(v, p),
{
    if bl < p {
        lemma_pow2_strictly_increases(bl, p);
    }
    lemma_basic_div(v as int, pow2(p) as int);
}

/// Bit `j` of window `i` is bit `7 * i + j` of the number.
pub proof fn lemma_window_bits(v: nat, i: nat, j: nat)
    requires
        j < 7,
    ensures
        bit_of(window_of(v, i), j) == bit_of(v, 7 * i + j),
{
    lemma2_to64();
    let q = (v / pow2(7 * i)) as int;
    let w = q % 128;
    let d = pow2(j) as int;
    let rest = pow2((6 - j) as nat) as int;
    let upper = q / 128;
    lemma_pow2_pos(7 * i);
    lemma_pow2_pos(j);
    lemma_pow2_adds(7 * i, j);
    lemma_div_denominator(v as int, pow2(7 * i) as int, d);
    lemma_fundamental_div_mod(q, 128);
    lemma_pow2_adds(j, (7 - j) as nat);
    lemma_pow2_unfold((7 - j) as nat);
    let k = 2 * (rest * upper);
    assert(128 * upper == k * d) by (nonlinear_arith)
        requires
            128 == d * (2 * rest),
            k == 2 * (rest * upper),
    ;
    lemma_hoist_over_denominator(w, k, d as nat);
    assert(q / d == w / d + k);
    lemma_mod_multiples_vanish(rest * upper, w / d, 2);
}

/// Bit `p` of a limb sequence's value is bit `p % 64` of limb `p / 64`.
pub proof fn lemma_limbs_bit(s: Seq<u64>, p: nat)
    requires
        p < 64 * s.len(),
    ensures
        bit_of(limbs_value(s), p) == bit_of(s[(p / 64) as int] as nat, p % 64),
    decreases s.len(),
{
    lemma2_to64();
    let b = limb_base() as int;
    let t = s.drop_first();
    let tv = limbs_value(t) as int;
    let s0 = s[0] as int;
    let v = limbs_value(s) as int;
    assert(v == s0 + b * tv);
    if p < 64 {
        let d = pow2(p) as int;
        let rest = pow2((63 - p) as nat) as int;
        lemma_pow2_pos(p);
        lemma_pow2_adds(p, (64 - p) as nat);
        lemma_pow2_unfold((64 - p) as nat);
        let k = 2 * (rest * tv);
        assert(b * tv == k * d) by (nonlinear_arith)
            requires
                b == d * (2 * rest),
                k == 2 * (rest * tv),
        ;
        lemma_hoist_over_denominator(s0, k, d as nat);
        assert(v / d == s0 / d + k);
        lemma_mod_multiples_vanish(rest * tv, s0 / d, 2);
    } else {
        let q = (p - 64) as nat;
        lemma_pow2_pos(q);
        lemma_pow2_adds(64, q);
        lemma_div_denominator(v, b, pow2(q) as int);
        lemma_hoist_over_denominator(s0, tv, b as nat);
        lemma_basic_div(s0, b);
        assert(tv * b == b * tv) by (nonlinear_arith);
        assert(v / b == tv);
        lemma_limbs_bit(t, q);
        assert(t[(q / 64) as int] == s[(p / 64) as int]);
        assert(q % 64 == p % 64);
    }
}

/// Reads bit `p` of the number that `s` stands for.
pub fn bit_at(s: &[u64], p: usize) -> (bit: bool)
    requires
        p < 64 * s.len(),
    ensures
        bit == bit_of(limbs_value(s@), p as nat),
{
    let x: u64 = s[p / LIMB_BITS];
    let shift: u64 = (p % LIMB_BITS) as u64;
    let y: u64 = x >> shift;
    proof {
        lemma_limbs_bit(s@, p as nat);
        lemma_u64_shr_is_div(x, shift);
        assert((y & 1 == 1) == (y % 2 == 1)) by (bit_vector);
    }
    (y & 1) == 1
}

/// The bit length of the number that `s` stands for; zero limbs at the top
/// do not count.
pub fn bit_length(s: &[u64]) -> (bl: usize)
    requires
        64 * s.len() <= usize::MAX,
    ensures
        bl <= 64 * s.len(),
        is_bit_length(limbs_value(s@), bl as nat),
        bl == bit_length_of(limbs_value(s@)),
{
    let bl = bit_length_bounds(s);
    proof {
        lemma_bit_length_unique(limbs_value(s@), bl as nat);
    }
    bl
}

/// Finds the bit length by locating the highest nonzero limb and counting
/// the bits of that limb.
fn bit_length_bounds(s: &[u64]) -> (bl: usize)
    requires
        64 * s.len() <= usize::MAX,
    ensures
        bl <= 64 * s.len(),
        is_bit_length(limbs_value(s@), bl as nat),
{
    let mut n: usize = s.len();
    proof {
        assert(s@.take(n as int) =~= s@);
    }
    while n > 0 && s[n - 1] == 0
        invariant
            n <= s.len(),
            limbs_value(s@) == limbs_value(s@.take(n as int)),
        decreases n,
    {
        proof {
            lemma_value_take_step(s@, n - 1);
            let z = s[n - 1];
            assert(z * radix_pow((n - 1) as nat) == 0) by (nonlinear_arith)
                requires
                    z == 0,
            ;
        }
        n -= 1;
    }
    if n == 0 {
        proof {
            lemma2_to64();
            assert(s@.take(0).len() == 0);
        }
        return 0;
    }
    let top: u64 = s[n - 1];
    let mut t: u64 = top;
    let mut c: usize = 0;
    proof {
        lemma2_to64();
    }
    while t != 0
        invariant
            c <= 64,
            t == top as nat / pow2(c as nat),
            c > 0 ==> top as nat / pow2((c - 1) as nat) > 0,
            c == 0 ==> top > 0,
        decreases t,
    {
        proof {
            lemma2_to64();
            if c == 64 {
                lemma_basic_div(top as int, pow2(64) as int);
            }
            lemma_pow2_pos(c as nat);
            lemma_pow2_unfold((c + 1) as nat);
            lemma_div_denominator(top as int, pow2(c as nat) as int, 2);
            assert(pow2(c as nat) * 2 == 2 * pow2(c as nat));
        }
        t = t / 2;
        c += 1;
    }
    proof {
        let m = (n - 1) as nat;
        let pc = pow2(c as nat) as int;
        let pm = radix_pow(m) as int;
        let low = limbs_value(s@.take(m as int)) as int;
        let v = limbs_value(s@) as int;
        lemma_pow2_pos(c as nat);
        lemma_fundamental_div_mod(top as int, pc);
        lemma_mod_bound(top as int, pc);
        assert(top < pc);
        lemma_value_take_step(s@, m as int);
        lemma_value_bound(s@.take(m as int));
        lemma_radix_pow_is_pow2(m);
        lemma_pow2_adds(c as nat, 64 * m);
        assert(v == low + top * pm);
        assert(v < pc * pm) by (nonlinear_arith)
            requires
                v == low + top * pm,
                0 <= low < pm,
                0 <= top < pc,
        ;
        let c1 = (c - 1) as nat;
        let pc1 = pow2(c1) as int;
        lemma_pow2_pos(c1);
        if top < pc1 {
            lemma_basic_div(top as int, pc1);
        }
        lemma_pow2_adds(c1, 64 * m);
        assert(pc1 * pm <= v) by (nonlinear_arith)
            requires
                v == low + top * pm,
                0 <= low,
                0 < pm,
                pc1 <= top,
        ;
        assert(c + 64 * m == 64 * m + c);
    }
    64 * (n - 1) + c
}

/// Extracts window `i` of the exponent `bp`, whose bit length is `bit_len`:
/// the bits from `7 * i` up to `7 * i + 6`, those at or above `bit_len`
/// taken as zero.
pub fn window_value(bp: &[u64], bit_len: usize, i: usize) -> (v: usize)
    requires
        bit_len <= 64 * bp.len(),
        limbs_value(bp@) < pow2(bit_len as nat),
        7 * i + 7 <= usize::MAX,
    ensures
        v == window_of(limbs_value(bp@), i as nat),
        v < WINDOW_SIZE,
{
    let ghost e = limbs_value(bp@) as int;
    let ghost x = e / (pow2(7 * i as nat) as int);
    let mut v: usize = 0;
    let mut weight: usize = 1;
    let mut j: usize = 0;
    proof {
        lemma2_to64();
        lemma_pow2_pos(7 * i as nat);
    }
    while j < WINDOW_BITS
        invariant
            j <= 7,
            weight == pow2(j as nat),
            v == x % (weight as int),
            v < weight,
            x == e / (pow2(7 * i as nat) as int),
            e == limbs_value(bp@),
            0 <= x,
            bit_len <= 64 * bp.len(),
            e < pow2(bit_len as nat),
            7 * i + 7 <= usize::MAX,
        decreases 7 - j,
    {
        let p = i * WINDOW_BITS + j;
        let set = p < bit_len && bit_at(bp, p);
        proof {
            lemma2_to64();
            let w = weight as int;
            lemma_pow2_pos(7 * i as nat);
            lemma_pow2_adds(7 * i as nat, j as nat);
            lemma_div_denominator(e, pow2(7 * i as nat) as int, w);
            assert(x / w == e / (pow2(p as nat) as int));
            if p >= bit_len {
                lemma_high_bits_clear(e as nat, bit_len as nat, p as nat);
            }
            assert(set == ((x / w) % 2 == 1));
            lemma_mod_breakdown(x, w, 2);
            lemma_pow2_unfold((j + 1) as nat);
            let top = (x / w) % 2;
            assert(w * top == if set { w } else { 0 }) by (nonlinear_arith)
                requires
                    top == if set { 1int } else { 0int },
            ;
            assert(x % (w * 2) == w * top + x % w);
        }
        if set {
            v += weight;
        }
        weight = weight * 2;
        j += 1;
    }
    v
}

} // verus!
