//! Exact arbitrary-precision naturals, as little-endian vectors of 64-bit
//! limbs.
//!
//! The logarithmic bucketing strategies need `floor(log_b(s^m))` for 64-bit
//! samples `s` and bucket densities `m`, and `s^m` does not fit any machine
//! integer. These helpers compute with exact integer arithmetic only, so
//! bucket boundaries come out identical on every host.

use vstd::prelude::*;
use vstd::arithmetic::div_mod::*;
use vstd::arithmetic::mul::*;
use vstd::arithmetic::power::*;
use vstd::arithmetic::power2::*;

verus! {

/// The base of the limb representation, `2^64`.
pub open spec fn limb_base() -> nat {
    0x1_0000_0000_0000_0000
}

/// The natural number denoted by a little-endian limb sequence.
pub open spec fn limbs_value(s: Seq<u64>) -> nat
    decreases s.len(),
{
    if s.len() == 0 {
        0
    } else {
        s[0] as nat + limb_base() * limbs_value(s.drop_first())
    }
}

pub proof fn lemma_limbs_value_empty()
    ensures
        limbs_value(Seq::<u64>::empty()) == 0,
{
}

pub proof fn lemma_limb_base_is_pow2()
    ensures
        limb_base() == pow2(64),
{
    lemma2_to64();
    lemma2_to64_rest();
}

/// The value of a prefix one limb longer is the shorter prefix's value plus
/// the next limb at its place value.
pub proof fn lemma_limbs_value_take_succ(s: Seq<u64>, j: int)
    requires
        0 <= j < s.len(),
    ensures
        limbs_value(s.take(j + 1)) == limbs_value(s.take(j)) + s[j] * pow(limb_base() as int,
            j as nat),
    decreases j,
{
    if j == 0 {
        assert(s.take(1).drop_first() =~= Seq::<u64>::empty());
        assert(s.take(0) =~= Seq::<u64>::empty());
        lemma_limbs_value_empty();
        assert(s.take(1)[0] == s[0]);
        assert(limbs_value(s.take(1)) == s[0] as nat + limb_base() * 0);
        lemma_pow0(limb_base() as int);
    } else {
        let t = s.drop_first();
        lemma_limbs_value_take_succ(t, j - 1);
        assert(s.take(j + 1).drop_first() =~= t.take(j));
        assert(s.take(j).drop_first() =~= t.take(j - 1));
        assert(limbs_value(s.take(j + 1)) == s[0] as nat + limb_base() * limbs_value(t.take(j)));
        assert(limbs_value(s.take(j)) == s[0] as nat + limb_base() * limbs_value(t.take(j - 1)));
        assert(t[j - 1] == s[j]);
        let b = limb_base() as int;
        let v = limbs_value(t.take(j - 1)) as int;
        let x = s[j] as int;
        let p1 = pow(b, (j - 1) as nat);
        let pj = pow(b, j as nat);
        assert(limbs_value(t.take(j)) == v + x * p1);
        assert(b * (v + x * p1) == b * v + x * (b * p1)) by (nonlinear_arith);
        assert(b * p1 == pj) by {
            lemma_pow_adds(b, 1, (j - 1) as nat);
            lemma_pow1(b);
        }
    }
}

/// The value of the first limb at the top of a suffix.
pub proof fn lemma_limbs_value_skip_unfold(s: Seq<u64>, j: int)
    requires
        0 <= j < s.len(),
    ensures
        limbs_value(s.skip(j)) == s[j] as nat + limb_base() * limbs_value(s.skip(j + 1)),
{
    assert(s.skip(j).drop_first() =~= s.skip(j + 1));
    assert(s.skip(j)[0] == s[j]);
}

/// A limb sequence's value is bounded by the place value just past its end.
pub proof fn lemma_limbs_value_bound(s: Seq<u64>)
    ensures
        limbs_value(s) < pow(limb_base() as int, s.len()),
    decreases s.len(),
{
    let b = limb_base() as int;
    if s.len() == 0 {
        lemma_pow0(b);
    } else {
        lemma_limbs_value_bound(s.drop_first());
        let v = limbs_value(s.drop_first()) as int;
        let p = pow(b, (s.len() - 1) as nat);
        lemma_pow_positive(b, (s.len() - 1) as nat);
        assert(v <= p - 1);
        assert(b * v <= b * (p - 1)) by (nonlinear_arith)
            requires
                v <= p - 1,
                b > 0,
        ;
        assert(b * (p - 1) == b * p - b) by (nonlinear_arith);
        assert(b * p == pow(b, s.len() as nat)) by {
            lemma_pow_adds(b, 1, (s.len() - 1) as nat);
            lemma_pow1(b);
        }
        assert(s[0] < b);
    }
}

/// A value is zero exactly when every limb is zero.
pub proof fn lemma_limbs_value_zero(s: Seq<u64>)
    ensures
        (limbs_value(s) == 0) <==> (forall|i: int| 0 <= i < s.len() ==> s[i] == 0),
    decreases s.len(),
{
    if s.len() > 0 {
        lemma_limbs_value_zero(s.drop_first());
        assert(forall|i: int| 1 <= i < s.len() ==> s[i] == s.drop_first()[i - 1]);
        if limbs_value(s) == 0 {
            assert(s[0] as nat + limb_base() * limbs_value(s.drop_first()) == 0);
            assert(limb_base() * limbs_value(s.drop_first()) >= 0) by (nonlinear_arith);
        }
        if forall|i: int| 0 <= i < s.len() ==> s[i] == 0 {
            assert(s.drop_first() =~= s.drop_first());
            assert(limbs_value(s.drop_first()) == 0);
        }
    }
}

/// The single-limb number holding `v`.
pub fn big_from_u64(v: u64) -> (r: Vec<u64>)
    ensures
        limbs_value(r@) == v as nat,
        r@.len() == 1,
{
    let mut r: Vec<u64> = Vec::new();
    r.push(v);
    proof {
        assert(r@.drop_first() =~= Seq::<u64>::empty());
        lemma_limbs_value_empty();
        assert(limbs_value(r@) == v as nat + limb_base() * 0);
    }
    r
}

/// Multiplies a limb number in place by a 64-bit factor.
pub fn big_mul_small(a: &mut Vec<u64>, m: u64)
    ensures
        limbs_value(final(a)@) == limbs_value(old(a)@) * m,
        final(a)@.len() <= old(a)@.len() + 1,
{
    let ghost a0 = a@;
    let mut carry: u64 = 0;
    let mut i: usize = 0;
    proof {
        assert(a@.take(0) =~= Seq::<u64>::empty());
        assert(a0.take(0) =~= Seq::<u64>::empty());
        lemma_limbs_value_empty();
        lemma_pow0(limb_base() as int);
    }
    while i < a.len()
        invariant
            i <= a@.len(),
            a0 == old(a)@,
            a@.len() == a0.len(),
            forall|j: int| i <= j < a0.len() ==> a@[j] == a0[j],
            limbs_value(a@.take(i as int)) + (carry as nat) * pow(limb_base() as int, i as nat)
                == limbs_value(a0.take(i as int)) * (m as nat),
        decreases a@.len() - i,
    {
        let ghost b: int = limb_base() as int;
        let ghost prev = a@;
        let ghost pcarry = carry;
        let limb = a[i];
        proof {
            assert((limb as u128) * (m as u128) <= (0xffff_ffff_ffff_ffffu128)
                * (0xffff_ffff_ffff_ffffu128)) by (nonlinear_arith)
                requires
                    limb <= 0xffff_ffff_ffff_ffffu64,
                    m <= 0xffff_ffff_ffff_ffffu64,
            ;
        }
        let p: u128 = (limb as u128) * (m as u128) + (carry as u128);
        let low: u64 = (p % 0x1_0000_0000_0000_0000u128) as u64;
        let hi: u64 = (p / 0x1_0000_0000_0000_0000u128) as u64;
        proof {
            lemma_fundamental_div_mod(p as int, limb_base() as int);
            assert(p / 0x1_0000_0000_0000_0000u128 < 0x1_0000_0000_0000_0000u128);
        }
        a.set(i, low);
        carry = hi;
        proof {
            let j = i as int;
            assert(a@.take(j) =~= prev.take(j));
            lemma_limbs_value_take_succ(a@, j);
            lemma_limbs_value_take_succ(a0, j);
            let pj = pow(b, i as nat);
            let pj1 = pow(b, (i + 1) as nat);
            lemma_pow_adds(b, i as nat, 1);
            lemma_pow1(b);
            assert(pj1 == pj * b);
            lemma_pow_positive(b, i as nat);
            // p == low + b * hi, and p == limb * m + pcarry
            assert(p as int == low + b * hi);
            assert(p as int == limb * m + pcarry);
            // multiply the limb identity through by the place value pj
            assert((limb * m + pcarry) * pj == (low + b * hi) * pj);
            assert((low + b * hi) * pj == low * pj + hi * (pj * b)) by (nonlinear_arith);
            assert((limb * m + pcarry) * pj == (limb * pj) * m + pcarry * pj)
                by (nonlinear_arith);
            // fold into the running invariant
            let lv_prev = limbs_value(prev.take(j)) as int;
            let lv0 = limbs_value(a0.take(j)) as int;
            assert(lv_prev + pcarry * pj == lv0 * m);
            assert(limbs_value(a@.take(j + 1)) == lv_prev + low * pj);
            assert(limbs_value(a0.take(j + 1)) == lv0 + limb * pj);
            assert(limbs_value(a@.take(j + 1)) + hi * pj1 == (lv0 + limb * pj) * m)
                by (nonlinear_arith)
                requires
                    pj1 == pj * b,
                    lv_prev + pcarry * pj == lv0 * m,
                    limbs_value(a@.take(j + 1)) == lv_prev + low * pj,
                    (limb * m + pcarry) * pj == low * pj + hi * (pj * b),
            ;
        }
        i += 1;
    }
    proof {
        assert(a@.take(i as int) =~= a@);
        assert(a0.take(i as int) =~= a0);
    }
    if carry != 0 {
        let ghost prev = a@;
        a.push(carry);
        proof {
            assert(a@.take(prev.len() as int) =~= prev);
            assert(a@.take(a@.len() as int) =~= a@);
            lemma_limbs_value_take_succ(a@, prev.len() as int);
        }
    } else {
        proof {
            assert((carry as nat) * pow(limb_base() as int, i as nat) == 0) by (nonlinear_arith)
                requires
                    carry == 0,
            ;
        }
    }
}

/// Divides a limb number in place by a non-zero 64-bit divisor; returns the
/// remainder.
pub fn big_div_small(a: &mut Vec<u64>, d: u64) -> (rem: u64)
    requires
        d >= 1,
    ensures
        limbs_value(final(a)@) == limbs_value(old(a)@) / d as nat,
        rem as nat == limbs_value(old(a)@) % d as nat,
        final(a)@.len() == old(a)@.len(),
{
    let ghost a0 = a@;
    let mut r: u64 = 0;
    let mut j: usize = a.len();
    proof {
        assert(a@.skip(j as int) =~= Seq::<u64>::empty());
        assert(a0.skip(j as int) =~= Seq::<u64>::empty());
        lemma_limbs_value_empty();
    }
    while j > 0
        invariant
            d >= 1,
            j <= a@.len(),
            a0 == old(a)@,
            a@.len() == a0.len(),
            r < d,
            forall|k: int| 0 <= k < j ==> a@[k] == a0[k],
            d * limbs_value(a@.skip(j as int)) + r as nat == limbs_value(a0.skip(j as int)),
        decreases j,
    {
        let ghost b: int = limb_base() as int;
        let ghost prev = a@;
        let ghost pr = r;
        let limb = a[j - 1];
        let cur: u128 = (r as u128) * 0x1_0000_0000_0000_0000u128 + (limb as u128);
        proof {
            assert((r as u128) * 0x1_0000_0000_0000_0000u128 <= (0xffff_ffff_ffff_ffffu128)
                * 0x1_0000_0000_0000_0000u128) by (nonlinear_arith)
                requires
                    r <= 0xffff_ffff_ffff_ffffu64,
            ;
        }
        let q: u128 = cur / (d as u128);
        let rem: u128 = cur % (d as u128);
        proof {
            lemma_fundamental_div_mod(cur as int, d as int);
            lemma_mod_division_less_than_divisor(cur as int, d as int);
            // cur <= (d-1) * b + (b-1) = d * b - 1, so q < b
            assert(cur as int <= (d - 1) * b + (b - 1)) by (nonlinear_arith)
                requires
                    r <= d - 1,
                    limb <= b - 1,
                    cur as int == r * b + limb,
            ;
            assert((d - 1) * b + (b - 1) == d * b - 1) by (nonlinear_arith);
            assert(q < b) by (nonlinear_arith)
                requires
                    cur as int == d * q + rem,
                    rem >= 0,
                    cur as int <= d * b - 1,
                    d >= 1,
                    q >= 0,
            ;
        }
        a.set(j - 1, q as u64);
        r = rem as u64;
        proof {
            let jj = j - 1;
            assert(a@.skip(j as int) =~= prev.skip(j as int));
            lemma_limbs_value_skip_unfold(a@, jj);
            lemma_limbs_value_skip_unfold(a0, jj);
            let vnew = limbs_value(a@.skip(j as int)) as int;
            let v0 = limbs_value(a0.skip(j as int)) as int;
            // before: d * vnew + pr == v0
            assert(d * vnew + pr == v0);
            assert(cur as int == pr * b + limb);
            assert(cur as int == d * q + rem);
            assert(a@.skip(jj)[0] == q as u64);
            assert(limbs_value(a@.skip(jj)) == q + b * vnew);
            assert(limbs_value(a0.skip(jj)) == limb + b * v0);
            assert(d * (q + b * vnew) + rem == limb + b * v0) by (nonlinear_arith)
                requires
                    d * vnew + pr == v0,
                    pr * b + limb == d * q + rem,
            ;
        }
        j -= 1;
    }
    proof {
        assert(a@.skip(0) =~= a@);
        assert(a0.skip(0) =~= a0);
        lemma_mul_is_commutative(d as int, limbs_value(a@) as int);
        lemma_fundamental_div_mod_converse(
            limbs_value(a0) as int,
            d as int,
            limbs_value(a@) as int,
            r as int,
        );
    }
    r
}

/// True exactly when the number is zero.
pub fn big_is_zero(a: &Vec<u64>) -> (z: bool)
    ensures
        z <==> limbs_value(a@) == 0,
{
    let mut i: usize = 0;
    while i < a.len()
        invariant
            i <= a@.len(),
            forall|j: int| 0 <= j < i ==> a@[j] == 0,
        decreases a@.len() - i,
    {
        if a[i] != 0 {
            proof {
                lemma_limbs_value_zero(a@);
            }
            return false;
        }
        i += 1;
    }
    proof {
        lemma_limbs_value_zero(a@);
    }
    true
}

/// The exact power `base^e` as a limb number.
pub fn big_pow(base: u64, e: u64) -> (r: Vec<u64>)
    requires
        base >= 1,
    ensures
        limbs_value(r@) == pow(base as int, e as nat),
        r@.len() <= e + 1,
{
    let mut r = big_from_u64(1);
    let mut i: u64 = 0;
    proof {
        lemma_pow0(base as int);
    }
    while i < e
        invariant
            base >= 1,
            i <= e,
            limbs_value(r@) == pow(base as int, i as nat),
            r@.len() <= i + 1,
        decreases e - i,
    {
        big_mul_small(&mut r, base);
        proof {
            lemma_pow_adds(base as int, i as nat, 1);
            lemma_pow1(base as int);
            assert(pow(base as int, (i + 1) as nat) == pow(base as int, i as nat) * base)
                by (nonlinear_arith)
                requires
                    pow(base as int, (i + 1) as nat) == pow(base as int, i as nat) * pow(
                        base as int,
                        1,
                    ),
                    pow(base as int, 1) == base,
            ;
        }
        i += 1;
    }
    r
}

/// Any base at least two outgrows the same exponent over base two.
pub proof fn lemma_pow_base_le(a: nat, b: nat, e: nat)
    requires
        a <= b,
    ensures
        pow(a as int, e) <= pow(b as int, e),
    decreases e,
{
    reveal(pow);
    if e > 0 {
        lemma_pow_base_le(a, b, (e - 1) as nat);
        let pa = pow(a as int, (e - 1) as nat);
        let pb = pow(b as int, (e - 1) as nat);
        assert(pa >= 0) by {
            if a == 0 {
                if e > 1 {
                    lemma0_pow((e - 1) as nat);
                }
            } else {
                lemma_pow_positive(a as int, (e - 1) as nat);
            }
        }
        assert(pow(a as int, e) == a * pa);
        assert(pow(b as int, e) == b * pb);
        assert(a * pa <= b * pb) by (nonlinear_arith)
            requires
                0 <= a <= b,
                0 <= pa <= pb,
        ;
    }
}

/// Counts how many times the number divides by `b` before vanishing: the
/// floor of the base-`b` logarithm. The number itself is consumed.
pub fn big_log_floor(a: &mut Vec<u64>, b: u64) -> (k: u64)
    requires
        b >= 2,
        limbs_value(old(a)@) >= 1,
        old(a)@.len() <= 0x1000_0000,
    ensures
        pow(b as int, k as nat) <= limbs_value(old(a)@) < pow(b as int, (k + 1) as nat),
        k < 64 * old(a)@.len(),
{
    let ghost v0 = limbs_value(a@) as int;
    let ghost len0 = a@.len();
    let mut k: u64 = 0;
    proof {
        lemma_pow0(b as int);
        lemma_pow1(b as int);
        assert(v0 / 1 == v0);
    }
    loop
        invariant
            b >= 2,
            v0 >= 1,
            v0 == limbs_value(old(a)@),
            len0 == old(a)@.len(),
            a@.len() == len0,
            len0 <= 0x1000_0000,
            limbs_value(a@) == v0 / pow(b as int, k as nat),
            limbs_value(a@) >= 1,
            pow(b as int, k as nat) <= v0,
            k < 64 * len0,
        decreases limbs_value(a@),
    {
        let ghost bb: int = b as int;
        let ghost vcur = limbs_value(a@) as int;
        let _ = big_div_small(a, b);
        proof {
            lemma_pow_positive(bb, k as nat);
            lemma_div_denominator(v0, pow(bb, k as nat), bb);
            lemma_pow_adds(bb, k as nat, 1);
            lemma_pow1(bb);
            assert(pow(bb, (k + 1) as nat) == pow(bb, k as nat) * bb);
            assert(limbs_value(a@) == v0 / pow(bb, (k + 1) as nat));
        }
        if big_is_zero(a) {
            proof {
                // quotient zero means v0 < b^(k+1)
                lemma_pow_positive(bb, (k + 1) as nat);
                lemma_small_div_converse(v0, pow(bb, (k + 1) as nat));
            }
            return k;
        }
        proof {
            // quotient at least one means b^(k+1) <= v0
            let p1 = pow(bb, (k + 1) as nat);
            lemma_pow_positive(bb, (k + 1) as nat);
            lemma_fundamental_div_mod(v0, p1);
            lemma_mod_division_less_than_divisor(v0, p1);
            assert(v0 >= p1) by (nonlinear_arith)
                requires
                    v0 == p1 * (v0 / p1) + v0 % p1,
                    v0 / p1 >= 1,
                    v0 % p1 >= 0,
                    p1 > 0,
            ;
            // the counter stays well below 64 * len0
            lemma_limbs_value_bound(old(a)@);
            lemma_limb_base_is_pow2();
            lemma_pow_base_le(2, b as nat, (k + 1) as nat);
            let e = (64 * len0) as nat;
            assert(pow(limb_base() as int, len0) == pow2(e)) by {
                lemma_pow2(e);
                lemma_pow2(64);
                lemma_pow_multiplies(2, 64, len0);
            }
            assert(pow2((k + 1) as nat) <= pow(bb, (k + 1) as nat)) by {
                lemma_pow2((k + 1) as nat);
            }
            if k + 1 >= e {
                if e < k + 1 {
                    lemma_pow2_strictly_increases(e, (k + 1) as nat);
                }
                assert(false);
            }
            // value strictly shrinks, for termination
            lemma_div_decreases(vcur, bb);
        }
        k += 1;
    }
}

} // verus!
