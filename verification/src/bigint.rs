//! Signed arbitrary-precision integers held as plain base-10 digit vectors.
//!
//! The representation (a sign flag and big-endian digits) is fully visible to
//! the verifier; only the four arithmetic primitives that need real bignum
//! machinery (add, mul, div_rem, sqrt) and the order test are delegated to
//! `num_bigint`, each behind a trusted wrapper with an exact integer contract.

use vstd::prelude::*;
use crate::rat::{p10, lemma_p10_adds, lemma_p10_one, lemma_p10_zero, lemma_p10_pos};
use num_bigint::{BigInt, Sign};
use num_integer::Integer;
use num_integer::Roots;

verus! {

/// A signed integer: `mag` is a big-endian base-10 digit vector.
/// The value of `{ neg: true, mag }` is `-(value of mag)`; a negative flag on
/// a zero magnitude still denotes zero.
#[derive(Debug)]
pub struct Bint {
    pub neg: bool,
    pub mag: Vec<u8>,
}

/// The integer denoted by a big-endian digit sequence.
pub open spec fn mag_int(s: Seq<u8>) -> int
    decreases s.len(),
{
    if s.len() == 0 {
        0
    } else {
        10 * mag_int(s.drop_last()) + s.last()
    }
}

/// Well-formed: every entry is a decimal digit.
pub open spec fn digits_ok(s: Seq<u8>) -> bool {
    forall|i: int| 0 <= i < s.len() ==> s[i] < 10
}

pub open spec fn bwf(b: Bint) -> bool {
    digits_ok(b.mag@)
}

/// The signed value of a `Bint`.
pub open spec fn bval(b: Bint) -> int {
    if b.neg {
        -mag_int(b.mag@)
    } else {
        mag_int(b.mag@)
    }
}

pub proof fn lemma_mag_nonneg(s: Seq<u8>)
    ensures
        mag_int(s) >= 0,
    decreases s.len(),
{
    if s.len() > 0 {
        lemma_mag_nonneg(s.drop_last());
    }
}

pub proof fn lemma_mag_push(s: Seq<u8>, d: u8)
    ensures
        mag_int(s.push(d)) == 10 * mag_int(s) + d,
{
    assert(s.push(d).drop_last() =~= s);
    assert(s.push(d).last() == d);
}

pub proof fn lemma_mag_insert_front(s: Seq<u8>, d: u8)
    ensures
        mag_int(s.insert(0, d)) == d * p10(s.len()) + mag_int(s),
    decreases s.len(),
{
    let t = s.insert(0, d);
    if s.len() == 0 {
        lemma_p10_zero();
        assert(t.drop_last() =~= Seq::<u8>::empty());
        assert(t.last() == d);
        assert(mag_int(t.drop_last()) == 0);
        assert(mag_int(t) == 10 * mag_int(t.drop_last()) + t.last());
    } else {
        lemma_mag_insert_front(s.drop_last(), d);
        assert(t.drop_last() =~= s.drop_last().insert(0, d));
        assert(t.last() == s.last());
        lemma_p10_adds((s.len() - 1) as nat, 1);
        lemma_p10_one();
        assert(d * p10(s.len()) == 10 * (d * p10((s.len() - 1) as nat))) by (nonlinear_arith)
            requires
                p10(s.len()) == p10((s.len() - 1) as nat) * p10(1nat),
                p10(1nat) == 10,
        ;
        assert(mag_int(t) == 10 * mag_int(s.drop_last().insert(0, d)) + s.last());
        assert(mag_int(t) == 10 * (d * p10((s.len() - 1) as nat) + mag_int(s.drop_last())) + s.last());
        assert(mag_int(s) == 10 * mag_int(s.drop_last()) + s.last());
    }
}

/// Relies on `num_bigint::BigInt` addition being exact integer addition; the
/// digits cross the boundary through `from_radix_be` / `to_radix_be` in base 10.
#[verifier::external_body]
pub(crate) fn big_add(a: &Bint, b: &Bint) -> (r: Bint)
    requires
        bwf(*a),
        bwf(*b),
    ensures
        bwf(r),
        bval(r) == bval(*a) + bval(*b),
{
    let sa = if a.neg { Sign::Minus } else { Sign::Plus };
    let sb = if b.neg { Sign::Minus } else { Sign::Plus };
    let x = BigInt::from_radix_be(sa, &a.mag, 10).unwrap();
    let y = BigInt::from_radix_be(sb, &b.mag, 10).unwrap();
    let (sign, mag) = (x + y).to_radix_be(10);
    Bint { neg: matches!(sign, Sign::Minus), mag }
}

/// Relies on `num_bigint::BigInt` multiplication being exact integer
/// multiplication; digit vectors cross through `from_radix_be` / `to_radix_be`.
#[verifier::external_body]
pub(crate) fn big_mul(a: &Bint, b: &Bint) -> (r: Bint)
    requires
        bwf(*a),
        bwf(*b),
    ensures
        bwf(r),
        bval(r) == bval(*a) * bval(*b),
{
    let sa = if a.neg { Sign::Minus } else { Sign::Plus };
    let sb = if b.neg { Sign::Minus } else { Sign::Plus };
    let x = BigInt::from_radix_be(sa, &a.mag, 10).unwrap();
    let y = BigInt::from_radix_be(sb, &b.mag, 10).unwrap();
    let (sign, mag) = (x * y).to_radix_be(10);
    Bint { neg: matches!(sign, Sign::Minus), mag }
}

/// Relies on `num_integer::Integer::div_rem` for `BigInt`: truncated division,
/// which on non-negative operands yields `a == q * b + r` with `0 <= r < b`.
#[verifier::external_body]
pub(crate) fn big_divrem(a: &Bint, b: &Bint) -> (r: (Bint, Bint))
    requires
        bwf(*a),
        bwf(*b),
        bval(*a) >= 0,
        bval(*b) > 0,
    ensures
        bwf(r.0),
        bwf(r.1),
        bval(*a) == bval(r.0) * bval(*b) + bval(r.1),
        0 <= bval(r.1) < bval(*b),
{
    let x = BigInt::from_radix_be(Sign::Plus, &a.mag, 10).unwrap();
    let y = BigInt::from_radix_be(Sign::Plus, &b.mag, 10).unwrap();
    let (q, rem) = x.div_rem(&y);
    let (_, qmag) = q.to_radix_be(10);
    let (_, rmag) = rem.to_radix_be(10);
    (Bint { neg: false, mag: qmag }, Bint { neg: false, mag: rmag })
}

/// Relies on `num_integer::Roots::sqrt` for `BigInt`: the truncated principal
/// square root, the largest `r` with `r * r <= a`.
#[verifier::external_body]
pub(crate) fn big_sqrt(a: &Bint) -> (r: Bint)
    requires
        bwf(*a),
        bval(*a) >= 0,
    ensures
        bwf(r),
        bval(r) >= 0,
        bval(r) * bval(r) <= bval(*a) < (bval(r) + 1) * (bval(r) + 1),
{
    let x = BigInt::from_radix_be(Sign::Plus, &a.mag, 10).unwrap();
    let (_, mag) = x.sqrt().to_radix_be(10);
    Bint { neg: false, mag }
}

/// Relies on `Ord` for `num_bigint::BigInt`: the order of the integer values.
#[verifier::external_body]
pub(crate) fn big_lt(a: &Bint, b: &Bint) -> (r: bool)
    requires
        bwf(*a),
        bwf(*b),
    ensures
        r == (bval(*a) < bval(*b)),
{
    let sa = if a.neg { Sign::Minus } else { Sign::Plus };
    let sb = if b.neg { Sign::Minus } else { Sign::Plus };
    let x = BigInt::from_radix_be(sa, &a.mag, 10).unwrap();
    let y = BigInt::from_radix_be(sb, &b.mag, 10).unwrap();
    x < y
}

pub(crate) fn copy_digits(v: &Vec<u8>) -> (r: Vec<u8>)
    ensures
        r@ == v@,
{
    let mut r: Vec<u8> = Vec::new();
    let mut i: usize = 0;
    while i < v.len()
        invariant
            i <= v.len(),
            r@ == v@.subrange(0, i as int),
        decreases v.len() - i,
    {
        let ghost prev = r@;
        r.push(v[i]);
        proof {
            assert(prev.push(v@[i as int]) =~= v@.subrange(0, i as int + 1));
        }
        i += 1;
    }
    proof {
        assert(v@.subrange(0, v@.len() as int) =~= v@);
    }
    r
}

pub(crate) fn big_copy(a: &Bint) -> (r: Bint)
    ensures
        r.neg == a.neg,
        r.mag@ == a.mag@,
        bval(r) == bval(*a),
        bwf(*a) ==> bwf(r),
{
    Bint { neg: a.neg, mag: copy_digits(&a.mag) }
}

pub(crate) fn big_neg(a: &Bint) -> (r: Bint)
    requires
        bwf(*a),
    ensures
        bwf(r),
        bval(r) == -bval(*a),
{
    let r = Bint { neg: !a.neg, mag: copy_digits(&a.mag) };
    proof {
        lemma_mag_nonneg(a.mag@);
    }
    r
}

/// Drop the sign: the absolute value.
pub(crate) fn big_abs(a: &Bint) -> (r: Bint)
    requires
        bwf(*a),
    ensures
        bwf(r),
        bval(r) == crate::rat::abs_int(bval(*a)),
        !r.neg,
        bval(r) >= 0,
{
    let r = Bint { neg: false, mag: copy_digits(&a.mag) };
    proof {
        lemma_mag_nonneg(a.mag@);
    }
    r
}

/// Append `k` zero digits: multiply the value by `10^k`.
pub(crate) fn big_shift(a: &Bint, k: usize) -> (r: Bint)
    requires
        bwf(*a),
    ensures
        bwf(r),
        bval(r) == bval(*a) * p10(k as nat),
        r.neg == a.neg,
{
    let mut mag = copy_digits(&a.mag);
    let mut i: usize = 0;
    proof {
        lemma_p10_zero();
    }
    while i < k
        invariant
            i <= k,
            digits_ok(mag@),
            digits_ok(a.mag@) ==> digits_ok(mag@),
            mag_int(mag@) == mag_int(a.mag@) * p10(i as nat),
            digits_ok(a.mag@),
        decreases k - i,
    {
        let ghost prev = mag@;
        mag.push(0u8);
        proof {
            lemma_mag_push(prev, 0u8);
            lemma_p10_adds(i as nat, 1);
            lemma_p10_one();
            assert(10 * (mag_int(a.mag@) * p10(i as nat)) == mag_int(a.mag@) * (p10(i as nat) * 10))
                by (nonlinear_arith);
        }
        i += 1;
    }
    let r = Bint { neg: a.neg, mag };
    proof {
        if a.neg {
            assert(-(mag_int(a.mag@) * p10(k as nat)) == (-mag_int(a.mag@)) * p10(k as nat))
                by (nonlinear_arith);
        }
    }
    r
}

/// The digit vector of `10^k`.
pub(crate) fn big_pow10(k: usize) -> (r: Bint)
    ensures
        bwf(r),
        bval(r) == p10(k as nat),
        !r.neg,
{
    let mut m: Vec<u8> = Vec::new();
    m.push(1u8);
    let one = Bint { neg: false, mag: m };
    proof {
        assert(one.mag@.drop_last() =~= Seq::<u8>::empty());
        assert(mag_int(one.mag@.drop_last()) == 0);
        assert(mag_int(one.mag@) == 10 * mag_int(one.mag@.drop_last()) + one.mag@.last());
        assert(bval(one) == 1);
    }
    let r = big_shift(&one, k);
    proof {
        lemma_p10_pos(k as nat);
    }
    r
}

} // verus!
