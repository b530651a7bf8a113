//! Fixed-window modular exponentiation, over plain division or over
//! Montgomery reduction.

use vstd::prelude::*;
use vstd::arithmetic::power2::{pow2, lemma_pow2_adds, lemma_pow2_pos, lemma2_to64};
use vstd::arithmetic::div_mod::{
    lemma_div_denominator, lemma_fundamental_div_mod, lemma_small_mod,
};
use crate::base::{
    bit_length, bit_length_of, block_count_of, is_bit_length, window_of, window_value,
    lemma_high_bits_clear, WINDOW_BITS, WINDOW_SIZE,
};
use crate::div::divrem;
use crate::limb::{limbs_value, one, padded, radix_pow};
use crate::form::{montgomery_form, lemma_domains_agree};
use crate::mem::{Region, TmpAllocator};
use crate::montgomery::{is_montgomery_inverse, montgomery_mul, montgomery_sqr, radix_inverse};
use crate::power::{
    monomial, nat_pow, lemma_monomial_plain, lemma_monomial_product, lemma_nat_pow_first,
};

verus! {

/// How a double-width product is brought back to the modulus's width:
/// by division, or by Montgomery reduction where `nquote` is given.
pub struct Reducer<'a> {
    pub modulus: &'a [u64],
    pub nquote: Option<&'a [u64]>,
}

impl<'a> Reducer<'a> {
    pub open spec fn modulus_value(&self) -> nat {
        limbs_value(self.modulus@)
    }

    /// The modulus is nonzero and short enough to index its double width by
    /// bit; a Montgomery inverse, where given, is as long as the modulus and
    /// is its inverse for the radix of that many limbs.
    pub open spec fn wf(&self) -> bool {
        &&& self.modulus@.len() >= 1
        &&& 128 * self.modulus@.len() <= usize::MAX
        &&& self.modulus_value() > 0
        &&& match self.nquote {
            None => true,
            Some(q) => q@.len() == self.modulus@.len() && is_montgomery_inverse(
                self.modulus_value(),
                limbs_value(q@),
                radix_pow(self.modulus@.len()),
            ),
        }
    }

    /// The factor that one reduction contributes: 1 for division, the
    /// inverse of the radix for Montgomery reduction.
    pub open spec fn rinv(&self) -> nat {
        match self.nquote {
            None => 1,
            Some(q) => radix_inverse(
                self.modulus_value(),
                limbs_value(q@),
                radix_pow(self.modulus@.len()),
            ),
        }
    }

    /// The operands the reducer takes: as long as the modulus, and for
    /// Montgomery reduction below it.
    pub open spec fn accepts(&self, x: Seq<u64>) -> bool {
        x.len() == self.modulus@.len() && (self.nquote is Some ==> limbs_value(x)
            < self.modulus_value())
    }

    /// The reduced product of two operands.
    pub open spec fn product(&self, x: nat, y: nat) -> nat {
        (x * y * self.rinv()) % self.modulus_value()
    }

    /// Multiplies two operands and reduces the product.
    pub fn reduce_mul(&self, x: &[u64], y: &[u64]) -> (w: Vec<u64>)
        requires
            self.wf(),
            self.accepts(x@),
            self.accepts(y@),
        ensures
            self.accepts(w@),
            limbs_value(w@) < self.modulus_value(),
            limbs_value(w@) == self.product(limbs_value(x@), limbs_value(y@)),
    {
        match self.nquote {
            None => {
                let t = crate::mul::mul(x, y);
                let (_, w) = divrem(t.as_slice(), self.modulus);
                proof {
                    let xy = limbs_value(x@) * limbs_value(y@);
                    assert(xy * 1 == xy);
                    vstd::arithmetic::div_mod::lemma_mod_bound(
                        xy as int,
                        self.modulus_value() as int,
                    );
                }
                w
            },
            Some(q) => montgomery_mul(x, y, self.modulus, q),
        }
    }

    /// Squares an operand and reduces the square.
    pub fn reduce_sqr(&self, x: &[u64]) -> (w: Vec<u64>)
        requires
            self.wf(),
            self.accepts(x@),
        ensures
            self.accepts(w@),
            limbs_value(w@) < self.modulus_value(),
            limbs_value(w@) == self.product(limbs_value(x@), limbs_value(x@)),
    {
        match self.nquote {
            None => {
                let t = crate::mul::sqr(x);
                let (_, w) = divrem(t.as_slice(), self.modulus);
                proof {
                    let xx = limbs_value(x@) * limbs_value(x@);
                    assert(xx * 1 == xx);
                    vstd::arithmetic::div_mod::lemma_mod_bound(
                        xx as int,
                        self.modulus_value() as int,
                    );
                }
                w
            },
            Some(q) => montgomery_sqr(x, self.modulus, q),
        }
    }
}

/// What entry `k >= 1` of the power table is congruent to: `base^k`, with
/// one factor `rinv` for each of the `k - 1` reductions that built it.
pub open spec fn table_entry(base: nat, rinv: nat, n: nat, k: nat) -> nat {
    (nat_pow(base, k) * nat_pow(rinv, (k - 1) as nat)) % n
}

/// A table entry is the monomial without the seed.
pub proof fn lemma_table_entry_monomial(seed: nat, base: nat, rinv: nat, n: nat, k: nat)
    requires
        k >= 1,
        n > 0,
    ensures
        monomial(seed, base, rinv, n, 0, k, (k - 1) as nat) == table_entry(base, rinv, n, k),
{
    lemma_nat_pow_first(seed);
    let p = nat_pow(base, k);
    assert(1 * p == p);
}

/// Builds, in the arena, the table of the powers of `a` that a window can
/// select, and returns the regions of its 128 entries.
///
/// Entry 0 is the plain number one, whatever the reducer; entry 1 is `a`
/// itself; each further entry is the reduced product of the entry before it
/// and `a`. Regions handed out before keep their limbs.
pub fn build_table(tmp: &mut TmpAllocator, red: &Reducer, a: &[u64]) -> (table: Vec<Region>)
    requires
        red.wf(),
        red.accepts(a@),
        old(tmp).limbs().len() + WINDOW_SIZE * a.len() <= usize::MAX,
    ensures
        table.len() == WINDOW_SIZE,
        forall|k: int|
            0 <= k < WINDOW_SIZE ==> final(tmp).holds(#[trigger] table[k]) && table[k].len
                == a.len(),
        limbs_value(final(tmp).content(table[0])) == 1,
        final(tmp).content(table[1]) == a@,
        forall|k: int|
            1 <= k < WINDOW_SIZE ==> red.accepts(#[trigger] final(tmp).content(table[k]))
                && limbs_value(final(tmp).content(table[k])) % red.modulus_value() == table_entry(
                limbs_value(a@),
                red.rinv(),
                red.modulus_value(),
                k as nat,
            ),
        forall|k: int|
            1 <= k < WINDOW_SIZE && (k >= 2 || limbs_value(a@) < red.modulus_value())
                ==> limbs_value(#[trigger] final(tmp).content(table[k])) == table_entry(
                limbs_value(a@),
                red.rinv(),
                red.modulus_value(),
                k as nat,
            ),
        forall|q: Region|
            old(tmp).holds(q) ==> #[trigger] final(tmp).content(q) == old(tmp).content(q),
{
    let ghost base = limbs_value(a@);
    let ghost nv = red.modulus_value();
    let ghost ri = red.rinv();
    let mn = a.len();
    let mut table: Vec<Region> = Vec::with_capacity(WINDOW_SIZE);
    proof {
        assert(WINDOW_SIZE * mn == 126 * mn + mn + mn) by (nonlinear_arith);
    }
    let pow_0 = tmp.allocate(mn);
    let unit = one(mn);
    tmp.store(pow_0, unit.as_slice());
    let pow_1 = tmp.allocate(mn);
    tmp.store(pow_1, a);
    table.push(pow_0);
    table.push(pow_1);
    proof {
        lemma_nat_pow_first(base);
        lemma_nat_pow_first(ri);
        assert(base * 1 == base);
        assert(tmp.content(pow_0) == unit@);
    }
    let mut i: usize = 2;
    while i < WINDOW_SIZE
        invariant
            2 <= i <= WINDOW_SIZE,
            table.len() == i,
            mn == a.len(),
            red.wf(),
            red.accepts(a@),
            base == limbs_value(a@),
            nv == red.modulus_value(),
            ri == red.rinv(),
            tmp.limbs().len() + (WINDOW_SIZE - i) * mn <= usize::MAX,
            table[1] == pow_1,
            forall|k: int| 0 <= k < i ==> tmp.holds(#[trigger] table[k]) && table[k].len == mn,
            limbs_value(tmp.content(table[0])) == 1,
            tmp.content(table[1]) == a@,
            forall|k: int|
                1 <= k < i ==> red.accepts(#[trigger] tmp.content(table[k])) && limbs_value(
                    tmp.content(table[k]),
                ) % nv == table_entry(base, ri, nv, k as nat),
            forall|k: int|
                2 <= k < i ==> limbs_value(#[trigger] tmp.content(table[k])) < nv,
            forall|q: Region|
                old(tmp).holds(q) ==> #[trigger] tmp.content(q) == old(tmp).content(q),
            forall|q: Region| old(tmp).holds(q) ==> tmp.holds(q),
            forall|q: Region|
                #![trigger old(tmp).holds(q)]
                old(tmp).holds(q) ==> q.start + q.len <= table[0].start,
        decreases WINDOW_SIZE - i,
    {
        let ghost earlier = *tmp;
        proof {
            assert((WINDOW_SIZE - i) * mn == (WINDOW_SIZE - (i + 1)) * mn + mn)
                by (nonlinear_arith)
                requires
                    i < WINDOW_SIZE,
            ;
        }
        let next = tmp.allocate(mn);
        let previous = table[i - 1];
        assert(earlier.holds(previous));
        assert(earlier.holds(pow_1));
        assert(tmp.content(previous) == earlier.content(previous));
        assert(tmp.content(pow_1) == earlier.content(pow_1));
        let product = red.reduce_mul(tmp.slice(pow_1), tmp.slice(previous));
        proof {
            let prev = limbs_value(tmp.content(previous));
            lemma_table_entry_monomial(1, base, ri, nv, 1);
            lemma_table_entry_monomial(1, base, ri, nv, (i - 1) as nat);
            lemma_table_entry_monomial(1, base, ri, nv, i as nat);
            lemma_monomial_product(
                1,
                base,
                ri,
                nv,
                base,
                prev,
                0,
                1,
                0,
                0,
                (i - 1) as nat,
                (i - 2) as nat,
            );
            lemma_small_mod(limbs_value(product@), nv);
        }
        let ghost grown = *tmp;
        tmp.store(next, product.as_slice());
        table.push(next);
        proof {
            assert forall|k: int| 0 <= k < i implies tmp.content(#[trigger] table[k])
                == earlier.content(table[k]) by {
                assert(earlier.holds(table[k]));
                assert(grown.content(table[k]) == earlier.content(table[k]));
                assert(grown.holds(table[k]));
                assert(table[k].disjoint(next));
            }
            assert forall|q: Region| old(tmp).holds(q) implies #[trigger] tmp.content(q) == old(
                tmp,
            ).content(q) by {
                assert(earlier.holds(q));
                assert(grown.content(q) == earlier.content(q));
                assert(grown.holds(q));
                assert(q.disjoint(next));
            }
        }
        i += 1;
    }
    proof {
        assert forall|k: int|
            1 <= k < WINDOW_SIZE && (k >= 2 || limbs_value(a@)
                < red.modulus_value()) implies limbs_value(#[trigger] tmp.content(table[k]))
            == table_entry(limbs_value(a@), red.rinv(), red.modulus_value(), k as nat) by {
            assert(red.accepts(tmp.content(table[k])));
            lemma_small_mod(limbs_value(tmp.content(table[k])), nv);
        }
    }
    table
}

/// What the windowed driver leaves in the accumulator for a nonzero
/// exponent `b`, from what the accumulator held on entry (`seed`).
///
/// Every window costs seven squarings, also the leading one, and each
/// reduction contributes a factor `rinv`: the seed is raised to
/// `2^(7 * blocks)` and `rinv` to `b + 2^(7 * blocks) - 1`.
pub open spec fn windowed_result(seed: nat, base: nat, rinv: nat, n: nat, b: nat) -> nat {
    let z = pow2(7 * block_count_of(bit_length_of(b)));
    monomial(seed, base, rinv, n, z, b, (b + z - 1) as nat)
}

/// The windowed driver: consumes the exponent `bp` in windows of seven
/// bits from the top, squaring the accumulator `wp` seven times per window
/// and multiplying by the table entry that a nonzero window selects.
pub fn windowed_pow(
    wp: &mut Vec<u64>,
    red: &Reducer,
    tmp: &TmpAllocator,
    table: &Vec<Region>,
    bp: &[u64],
)
    requires
        red.wf(),
        red.accepts(old(wp)@),
        64 * bp.len() + 7 <= usize::MAX,
        table.len() == WINDOW_SIZE,
        forall|k: int| 1 <= k < WINDOW_SIZE ==> tmp.holds(#[trigger] table[k]),
        forall|k: int|
            1 <= k < WINDOW_SIZE ==> red.accepts(#[trigger] tmp.content(table[k])) && limbs_value(
                tmp.content(table[k]),
            ) % red.modulus_value() == table_entry(
                limbs_value(tmp.content(table[1])),
                red.rinv(),
                red.modulus_value(),
                k as nat,
            ),
    ensures
        final(wp).len() == old(wp).len(),
        limbs_value(bp@) == 0 ==> final(wp)@ == old(wp)@,
        limbs_value(bp@) > 0 ==> limbs_value(final(wp)@) == windowed_result(
            limbs_value(old(wp)@),
            limbs_value(tmp.content(table[1])),
            red.rinv(),
            red.modulus_value(),
            limbs_value(bp@),
        ),
        limbs_value(bp@) > 0 ==> limbs_value(final(wp)@) < red.modulus_value(),
{
    let ghost seed = limbs_value(wp@);
    let ghost w0 = wp@;
    let ghost base = limbs_value(tmp.content(table[1]));
    let ghost nv = red.modulus_value();
    let ghost ri = red.rinv();
    let ghost bv = limbs_value(bp@);
    let exp_bit_length = bit_length(bp);
    let block_count = (exp_bit_length + WINDOW_BITS - 1) / WINDOW_BITS;
    let mut i: usize = block_count;
    let ghost mut e: nat = 0;
    let ghost mut d: nat = 0;
    proof {
        lemma2_to64();
        lemma_high_bits_clear(bv, exp_bit_length as nat, (7 * block_count) as nat);
        lemma_nat_pow_first(seed);
        lemma_nat_pow_first(base);
        lemma_nat_pow_first(ri);
        assert(seed * 1 * 1 == seed);
        assert(7 * (block_count - i) == 0);
        if bv == 0 && exp_bit_length > 0 {
            lemma_pow2_pos((exp_bit_length - 1) as nat);
        }
    }
    while i > 0
        invariant
            i <= block_count,
            block_count == block_count_of(exp_bit_length as nat),
            exp_bit_length <= 64 * bp.len(),
            64 * bp.len() + 7 <= usize::MAX,
            is_bit_length(bv, exp_bit_length as nat),
            red.wf(),
            red.accepts(wp@),
            table.len() == WINDOW_SIZE,
            forall|k: int| 1 <= k < WINDOW_SIZE ==> tmp.holds(#[trigger] table[k]),
            forall|k: int|
                1 <= k < WINDOW_SIZE ==> red.accepts(#[trigger] tmp.content(table[k]))
                    && limbs_value(tmp.content(table[k])) % nv == table_entry(
                    base,
                    ri,
                    nv,
                    k as nat,
                ),
            base == limbs_value(tmp.content(table[1])),
            nv == red.modulus_value(),
            nv > 0,
            ri == red.rinv(),
            bv == limbs_value(bp@),
            e == bv / pow2((7 * i) as nat),
            d + 1 == pow2((7 * (block_count - i)) as nat),
            limbs_value(wp@) % nv == monomial(seed, base, ri, nv, d + 1, e, e + d),
            i < block_count ==> limbs_value(wp@) < nv,
            i == block_count ==> wp@ == w0,
            wp.len() == w0.len(),
        decreases i,
    {
        i -= 1;
        let block_value = window_value(bp, exp_bit_length, i);
        let ghost mut ej: nat = e;
        let ghost mut dj: nat = d;
        let mut j: usize = 0;
        proof {
            lemma2_to64();
        }
        while j < WINDOW_BITS
            invariant
                j <= 7,
                red.wf(),
                red.accepts(wp@),
                nv == red.modulus_value(),
                nv > 0,
                ri == red.rinv(),
                ej == e * pow2(j as nat),
                dj + 1 == (d + 1) * pow2(j as nat),
                limbs_value(wp@) % nv == monomial(seed, base, ri, nv, dj + 1, ej, ej + dj),
                j > 0 ==> limbs_value(wp@) < nv,
                wp.len() == w0.len(),
            decreases 7 - j,
        {
            let squared = red.reduce_sqr(wp.as_slice());
            proof {
                let v = limbs_value(wp@);
                lemma_monomial_product(
                    seed,
                    base,
                    ri,
                    nv,
                    v,
                    v,
                    dj + 1,
                    ej,
                    ej + dj,
                    dj + 1,
                    ej,
                    ej + dj,
                );
                lemma_small_mod(limbs_value(squared@), nv);
                vstd::arithmetic::power2::lemma_pow2_unfold((j + 1) as nat);
                let pj = pow2(j as nat);
                assert(e * (2 * pj) == 2 * (e * pj)) by (nonlinear_arith);
                assert((d + 1) * (2 * pj) == 2 * ((d + 1) * pj)) by (nonlinear_arith);
                ej = 2 * ej;
                dj = 2 * dj + 1;
            }
            *wp = squared;
            j += 1;
        }
        if block_value != 0 {
            let selected = table[block_value];
            assert(red.accepts(tmp.content(selected)));
            let product = red.reduce_mul(wp.as_slice(), tmp.slice(selected));
            proof {
                lemma_table_entry_monomial(seed, base, ri, nv, block_value as nat);
                lemma_monomial_product(
                    seed,
                    base,
                    ri,
                    nv,
                    limbs_value(wp@),
                    limbs_value(tmp.content(selected)),
                    dj + 1,
                    ej,
                    ej + dj,
                    0,
                    block_value as nat,
                    (block_value - 1) as nat,
                );
                lemma_small_mod(limbs_value(product@), nv);
            }
            *wp = product;
        }
        proof {
            lemma2_to64();
            assert(ej == e * 128);
            assert(dj + 1 == (d + 1) * 128);
            let lowp = pow2((7 * i) as nat) as int;
            let q = (bv as int) / lowp;
            lemma_pow2_pos((7 * i) as nat);
            lemma_pow2_adds((7 * i) as nat, 7);
            lemma_div_denominator(bv as int, lowp, 128);
            assert(7 * i + 7 == 7 * (i + 1));
            assert(q / 128 == e);
            lemma_fundamental_div_mod(q, 128);
            assert(q == 128 * e + block_value);
            lemma_pow2_adds((7 * (block_count - (i + 1))) as nat, 7);
            assert(7 * (block_count - (i + 1)) + 7 == 7 * (block_count - i));
            e = ej + block_value as nat;
            d = dj;
        }
    }
    proof {
        lemma2_to64();
        assert(bv as int / 1 == bv);
        if bv > 0 {
            assert(exp_bit_length > 0);
            lemma_small_mod(limbs_value(wp@), nv);
        }
    }
}

/// What plain modular exponentiation returns: one for a zero exponent, and
/// else the remainder of the power.
pub open spec fn modpow_spec(a: nat, b: nat, m: nat) -> nat {
    if b == 0 {
        1
    } else {
        nat_pow(a, b) % m
    }
}

/// Computes `a^b mod m` into `wp`, reducing by division.
///
/// The result has as many limbs as `m`. The base needs no more limbs than
/// the modulus, but need not be below it; the modulus need not be odd.
pub fn modpow(wp: &mut Vec<u64>, mp: &[u64], ap: &[u64], bp: &[u64])
    requires
        mp.len() >= 1,
        limbs_value(mp@) > 0,
        ap.len() <= mp.len(),
        128 * mp.len() <= usize::MAX,
        64 * bp.len() + 7 <= usize::MAX,
    ensures
        final(wp).len() == mp.len(),
        limbs_value(final(wp)@) == modpow_spec(
            limbs_value(ap@),
            limbs_value(bp@),
            limbs_value(mp@),
        ),
{
    let red = Reducer { modulus: mp, nquote: None };
    let mut tmp = TmpAllocator::new();
    let a = padded(ap, mp.len());
    let table = build_table(&mut tmp, &red, a.as_slice());
    *wp = one(mp.len());
    windowed_pow(wp, &red, &tmp, &table, bp);
    proof {
        let b = limbs_value(bp@);
        let z = pow2(7 * block_count_of(bit_length_of(b)));
        lemma_monomial_plain(limbs_value(ap@), limbs_value(mp@), z, b, (b + z - 1) as nat);
    }
}

/// Raises `a` to the power `bp` modulo `n` with Montgomery reduction, in
/// the accumulator `wp`.
///
/// The accumulator is read before it is written: it is the value that the
/// windows are applied to, and a zero exponent leaves it as it was. Seeded
/// with the Montgomery form of one, and with `a` the Montgomery form of a
/// base, it ends as the Montgomery form of that base's power. For any other
/// seed the first clauses say what it ends as: every window squares the
/// seed seven times, the leading one too.
pub fn modpow_by_montgomery(
    wp: &mut Vec<u64>,
    n: &[u64],
    nquote: &[u64],
    a: &[u64],
    bp: &[u64],
)
    requires
        n.len() >= 1,
        128 * n.len() <= usize::MAX,
        64 * bp.len() + 7 <= usize::MAX,
        nquote.len() == n.len(),
        a.len() == n.len(),
        old(wp).len() == n.len(),
        is_montgomery_inverse(
            limbs_value(n@),
            limbs_value(nquote@),
            radix_pow(n.len() as nat),
        ),
        limbs_value(a@) < limbs_value(n@),
        limbs_value(old(wp)@) < limbs_value(n@),
    ensures
        final(wp).len() == n.len(),
        limbs_value(bp@) == 0 ==> final(wp)@ == old(wp)@,
        limbs_value(bp@) > 0 ==> limbs_value(final(wp)@) == windowed_result(
            limbs_value(old(wp)@),
            limbs_value(a@),
            radix_inverse(limbs_value(n@), limbs_value(nquote@), radix_pow(n.len() as nat)),
            limbs_value(n@),
            limbs_value(bp@),
        ),
        limbs_value(bp@) > 0 ==> limbs_value(final(wp)@) < limbs_value(n@),
        forall|plain: nat|
            limbs_value(a@) == #[trigger] montgomery_form(
                plain,
                limbs_value(n@),
                radix_pow(n.len() as nat),
            ) && limbs_value(old(wp)@) == montgomery_form(
                1,
                limbs_value(n@),
                radix_pow(n.len() as nat),
            ) ==> limbs_value(final(wp)@) == montgomery_form(
                nat_pow(plain, limbs_value(bp@)),
                limbs_value(n@),
                radix_pow(n.len() as nat),
            ),
{
    let red = Reducer { modulus: n, nquote: Some(nquote) };
    let mut tmp = TmpAllocator::new();
    let table = build_table(&mut tmp, &red, a);
    windowed_pow(wp, &red, &tmp, &table, bp);
    proof {
        let nv = limbs_value(n@);
        let qv = limbs_value(nquote@);
        let r = radix_pow(n.len() as nat);
        let bv = limbs_value(bp@);
        assert forall|plain: nat|
            limbs_value(a@) == #[trigger] montgomery_form(plain, nv, r) && limbs_value(old(wp)@)
                == montgomery_form(1, nv, r) implies limbs_value(wp@) == montgomery_form(
            nat_pow(plain, bv),
            nv,
            r,
        ) by {
            if bv > 0 {
                lemma_domains_agree(plain, bv, nv, qv, r);
            } else {
                lemma_nat_pow_first(plain);
            }
        }
    }
}

} // verus!
