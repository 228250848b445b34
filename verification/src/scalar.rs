//! The arbitrary-precision decimal scalar: a big integer together with a
//! decimal scale, denoting the exact rational `num / 10^scale`. Addition,
//! subtraction and multiplication are exact; division, rounding and the square
//! root take an explicit digit count and round to the nearest multiple of
//! `10^-digits` (ties away from zero).

use vstd::prelude::*;
use crate::rat::{
    Rat, p10, nmax, abs_int, rat_int, rat_zero, rat_one, rat_add, rat_neg, rat_sub, rat_mul,
    rat_abs, rat_at, rat_eq, rat_le, rat_lt, rdiv, tdiv, rat_rdiv_n, rat_rdiv, rat_round,
    rat_tquot, isqrt, lemma_p10_pos, lemma_p10_adds, lemma_p10_zero, lemma_p10_one,
    lemma_abs_mul_pos, lemma_rdiv_char, lemma_tdiv_char, lemma_rdiv_nonneg, lemma_isqrt_unique,
};
use crate::bigint::{
    Bint, bwf, bval, mag_int, digits_ok, big_add, big_mul, big_divrem, big_sqrt, big_lt,
    big_copy, big_neg, big_abs, big_shift, big_pow10, lemma_mag_nonneg, lemma_mag_insert_front,
};
use num_bigint::{BigInt, Sign};

verus! {

/// An arbitrary-precision decimal: the exact rational `num / 10^scale`.
#[derive(Debug)]
pub struct Scalar {
    pub num: Bint,
    pub scale: usize,
}

pub open spec fn swf(s: Scalar) -> bool {
    bwf(s.num)
}

/// The rational denoted by a scalar.
pub open spec fn sv(s: Scalar) -> Rat {
    Rat { n: bval(s.num), e: s.scale as nat }
}

/// What a scalar's exp returns: e raised to the argument, as computed by the
/// backing decimal library. The series value has no short exact statement, so
/// it is only named; see `exp_raw`.
pub uninterp spec fn exp_of(x: Rat) -> Rat;

impl Scalar {
    /// The scalar 0 (at scale 0).
    pub fn zero() -> (r: Scalar)
        ensures
            swf(r),
            sv(r) == rat_zero(),
            r.scale == 0,
    {
        let r = Scalar { num: Bint { neg: false, mag: Vec::new() }, scale: 0 };
        proof {
            assert(mag_int(r.num.mag@) == 0);
        }
        r
    }

    /// The scalar 1 (at scale 0).
    pub fn one() -> (r: Scalar)
        ensures
            swf(r),
            sv(r) == rat_one(),
            r.scale == 0,
    {
        let r = Scalar { num: big_pow10(0), scale: 0 };
        proof {
            lemma_p10_zero();
        }
        r
    }

    /// Construct the scalar denoting the given integer.
    pub fn from_int(v: i64) -> (r: Scalar)
        ensures
            swf(r),
            sv(r) == rat_int(v as int),
            r.scale == 0,
    {
        let neg = v < 0;
        let mut u: u64 = if v < 0 {
            (-(v as i128)) as u64
        } else {
            v as u64
        };
        let ghost total = u as int;
        let mut mag: Vec<u8> = Vec::new();
        proof {
            lemma_p10_zero();
        }
        while u > 0
            invariant
                digits_ok(mag@),
                total == u * p10(mag@.len()) + mag_int(mag@),
                mag_int(mag@) >= 0,
            decreases u,
        {
            let d = (u % 10) as u8;
            let ghost prev = mag@;
            let ghost uprev = u as int;
            mag.insert(0, d);
            u = u / 10;
            proof {
                lemma_mag_insert_front(prev, d);
                lemma_p10_adds(prev.len(), 1);
                lemma_p10_one();
                lemma_mag_nonneg(mag@);
                assert(uprev == 10 * (uprev / 10) + (uprev % 10));
                assert((uprev / 10) * (p10(prev.len()) * 10) + d * p10(prev.len()) == (10 * (
                uprev / 10) + d) * p10(prev.len())) by (nonlinear_arith);
                assert((uprev / 10) * p10(prev.len() + 1) == (uprev / 10) * (p10(prev.len())
                    * 10)) by (nonlinear_arith)
                    requires
                        p10(prev.len() + 1) == p10(prev.len()) * 10,
                ;
            }
        }
        let r = Scalar { num: Bint { neg, mag }, scale: 0 };
        proof {
            assert(total == mag_int(r.num.mag@));
            if neg {
                assert(total == -(v as int));
            } else {
                assert(total == v as int);
            }
        }
        r
    }

    /// Construct a scalar from a sign, big-endian decimal digits and a scale:
    /// the value `digits / 10^scale`, negated when `neg` is set. Returns
    /// `None` when some entry is not a decimal digit.
    pub fn from_parts(neg: bool, digits: Vec<u8>, scale: usize) -> (r: Option<Scalar>)
        ensures
            digits_ok(digits@) <==> r is Some,
            r matches Some(s) ==> s.num.neg == neg && s.num.mag@ == digits@ && s.scale == scale
                && swf(s),
    {
        let mut i: usize = 0;
        while i < digits.len()
            invariant
                i <= digits.len(),
                forall|j: int| 0 <= j < i ==> digits@[j] < 10,
            decreases digits.len() - i,
        {
            if digits[i] >= 10 {
                return None;
            }
            i += 1;
        }
        Some(Scalar { num: Bint { neg, mag: digits }, scale })
    }

    /// A copy denoting the same value.
    pub fn dup(&self) -> (r: Scalar)
        ensures
            r.num.neg == self.num.neg,
            r.num.mag@ == self.num.mag@,
            r.scale == self.scale,
            sv(r) == sv(*self),
            swf(*self) ==> swf(r),
    {
        Scalar { num: big_copy(&self.num), scale: self.scale }
    }

    /// Negation; exact.
    pub fn neg(&self) -> (r: Scalar)
        requires
            swf(*self),
        ensures
            swf(r),
            sv(r) == rat_neg(sv(*self)),
            r.scale == self.scale,
    {
        Scalar { num: big_neg(&self.num), scale: self.scale }
    }

    /// The absolute value; exact.
    pub fn abs(&self) -> (r: Scalar)
        requires
            swf(*self),
        ensures
            swf(r),
            sv(r) == rat_abs(sv(*self)),
            r.scale == self.scale,
    {
        Scalar { num: big_abs(&self.num), scale: self.scale }
    }

    /// Exact sum, written at the finer of the two scales.
    pub fn add(&self, rhs: &Scalar) -> (r: Scalar)
        requires
            swf(*self),
            swf(*rhs),
        ensures
            swf(r),
            sv(r) == rat_add(sv(*self), sv(*rhs)),
    {
        proof {
            lemma_p10_zero();
        }
        if self.scale >= rhs.scale {
            let shifted = big_shift(&rhs.num, self.scale - rhs.scale);
            let num = big_add(&self.num, &shifted);
            let r = Scalar { num, scale: self.scale };
            proof {
                assert(rat_at(sv(*self), nmax(sv(*self).e, sv(*rhs).e)) == bval(self.num));
            }
            r
        } else {
            let shifted = big_shift(&self.num, rhs.scale - self.scale);
            let num = big_add(&shifted, &rhs.num);
            let r = Scalar { num, scale: rhs.scale };
            proof {
                assert(rat_at(sv(*rhs), nmax(sv(*self).e, sv(*rhs).e)) == bval(rhs.num));
            }
            r
        }
    }

    /// Exact difference, written at the finer of the two scales.
    pub fn sub(&self, rhs: &Scalar) -> (r: Scalar)
        requires
            swf(*self),
            swf(*rhs),
        ensures
            swf(r),
            sv(r) == rat_sub(sv(*self), sv(*rhs)),
    {
        self.add(&rhs.neg())
    }

    /// Exact product; the scales add.
    pub fn mul(&self, rhs: &Scalar) -> (r: Scalar)
        requires
            swf(*self),
            swf(*rhs),
            self.scale + rhs.scale <= usize::MAX,
        ensures
            swf(r),
            sv(r) == rat_mul(sv(*self), sv(*rhs)),
            r.scale == self.scale + rhs.scale,
    {
        Scalar { num: big_mul(&self.num, &rhs.num), scale: self.scale + rhs.scale }
    }

    /// Value order: `self <= rhs`.
    pub fn le(&self, rhs: &Scalar) -> (r: bool)
        requires
            swf(*self),
            swf(*rhs),
        ensures
            r == rat_le(sv(*self), sv(*rhs)),
    {
        let (x, y) = align(self, rhs);
        !big_lt(&y, &x)
    }

    /// Value order: `self < rhs`.
    pub fn lt(&self, rhs: &Scalar) -> (r: bool)
        requires
            swf(*self),
            swf(*rhs),
        ensures
            r == rat_lt(sv(*self), sv(*rhs)),
    {
        let (x, y) = align(self, rhs);
        big_lt(&x, &y)
    }

    /// Value equality (representations at different scales compare equal when
    /// they denote the same rational).
    pub fn eq_val(&self, rhs: &Scalar) -> (r: bool)
        requires
            swf(*self),
            swf(*rhs),
        ensures
            r == rat_eq(sv(*self), sv(*rhs)),
    {
        let (x, y) = align(self, rhs);
        !big_lt(&x, &y) && !big_lt(&y, &x)
    }

    /// Quotient rounded to the nearest multiple of `10^-digits`, ties away
    /// from zero. The divisor must be non-zero.
    pub fn div(&self, rhs: &Scalar, digits: usize) -> (r: Scalar)
        requires
            swf(*self),
            swf(*rhs),
            bval(rhs.num) != 0,
            digits + rhs.scale <= usize::MAX,
        ensures
            swf(r),
            r.scale == digits,
            bval(r.num) == rat_rdiv_n(sv(*self), sv(*rhs), digits as nat),
            sv(r) == rat_rdiv(sv(*self), sv(*rhs), digits as nat),
    {
        let na = big_abs(&self.num);
        let nb = big_abs(&rhs.num);
        let nn = big_shift(&na, digits + rhs.scale);
        let dd = big_shift(&nb, self.scale);
        proof {
            lemma_p10_pos((digits + rhs.scale) as nat);
            lemma_p10_pos(self.scale as nat);
            lemma_abs_mul_pos(bval(self.num), p10((digits + rhs.scale) as nat));
            lemma_abs_mul_pos(bval(rhs.num), p10(self.scale as nat));
            lemma_abs_mul_pos(abs_int(bval(rhs.num)), p10(self.scale as nat));
            lemma_mag_nonneg(self.num.mag@);
            lemma_mag_nonneg(rhs.num.mag@);
        }
        let (q, rem) = big_divrem(&nn, &dd);
        let ghost qv = bval(q);
        let ghost remv = bval(rem);
        let two_rem = big_add(&rem, &rem);
        let round_up = !big_lt(&two_rem, &dd);
        let qr = if round_up {
            big_add(&q, &big_pow10(0))
        } else {
            q
        };
        proof {
            lemma_p10_zero();
        }
        let rneg = self.num.neg != rhs.num.neg;
        let r = Scalar { num: Bint { neg: rneg, mag: qr.mag }, scale: digits };
        proof {
            lemma_mag_nonneg(qr.mag@);
            let a = sv(*self);
            let b = sv(*rhs);
            let ns = a.n * p10(digits as nat + b.e);
            let ds = b.n * p10(a.e);
            assert(abs_int(ns) == bval(nn));
            assert(abs_int(ds) == bval(dd));
            assert(bval(dd) > 0);
            lemma_rdiv_char(bval(nn), bval(dd), qv, remv);
            let qstar = if 2 * remv < bval(dd) { qv } else { qv + 1 };
            assert(bval(qr) == qstar);
            assert(rdiv(bval(nn), bval(dd)) == qstar);
            // the magnitude of qr carries exactly qstar
            assert(mag_int(qr.mag@) == qstar);
            // relate the signed rounded quotient to the unsigned one
            assert(abs_int(abs_int(ns)) == abs_int(ns));
            assert(abs_int(abs_int(ds)) == abs_int(ds));
            if qstar == 0 {
                assert(bval(r.num) == 0);
                assert(rdiv(ns, ds) == 0);
            } else {
                assert(bval(nn) > 0) by {
                    if bval(nn) == 0 {
                        assert(qv == 0 && remv == 0);
                    }
                };
                assert(ns != 0 && a.n != 0);
                assert((a.n < 0) == self.num.neg);
                assert((b.n < 0) == rhs.num.neg);
                if rneg {
                    assert(!((ns < 0) <==> (ds < 0)));
                    assert(rdiv(ns, ds) == -qstar);
                    assert(bval(r.num) == -qstar);
                } else {
                    assert((ns < 0) <==> (ds < 0));
                    assert(rdiv(ns, ds) == qstar);
                    assert(bval(r.num) == qstar);
                }
            }
            assert(bval(r.num) == rat_rdiv_n(a, b, digits as nat));
        }
        r
    }

    /// Quotient truncated toward zero to an integer (at scale 0). The divisor
    /// must be non-zero.
    pub fn div_trunc(&self, rhs: &Scalar) -> (r: Scalar)
        requires
            swf(*self),
            swf(*rhs),
            bval(rhs.num) != 0,
        ensures
            swf(r),
            r.scale == 0,
            bval(r.num) == rat_tquot(sv(*self), sv(*rhs)),
            sv(r) == rat_int(rat_tquot(sv(*self), sv(*rhs))),
    {
        let na = big_abs(&self.num);
        let nb = big_abs(&rhs.num);
        let nn = big_shift(&na, rhs.scale);
        let dd = big_shift(&nb, self.scale);
        proof {
            lemma_p10_pos(rhs.scale as nat);
            lemma_p10_pos(self.scale as nat);
            lemma_abs_mul_pos(bval(self.num), p10(rhs.scale as nat));
            lemma_abs_mul_pos(bval(rhs.num), p10(self.scale as nat));
            lemma_abs_mul_pos(abs_int(bval(rhs.num)), p10(self.scale as nat));
            lemma_mag_nonneg(self.num.mag@);
            lemma_mag_nonneg(rhs.num.mag@);
        }
        let (q, rem) = big_divrem(&nn, &dd);
        let ghost qv = bval(q);
        let ghost remv = bval(rem);
        let rneg = self.num.neg != rhs.num.neg;
        let r = Scalar { num: Bint { neg: rneg, mag: q.mag }, scale: 0 };
        proof {
            lemma_mag_nonneg(q.mag@);
            let a = sv(*self);
            let b = sv(*rhs);
            let ns = a.n * p10(b.e);
            let ds = b.n * p10(a.e);
            assert(abs_int(ns) == bval(nn));
            assert(abs_int(ds) == bval(dd));
            assert(bval(dd) > 0);
            lemma_tdiv_char(bval(nn), bval(dd), qv, remv);
            assert(tdiv(bval(nn), bval(dd)) == qv);
            assert(mag_int(q.mag@) == qv);
            assert(abs_int(abs_int(ns)) == abs_int(ns));
            assert(abs_int(abs_int(ds)) == abs_int(ds));
            if qv == 0 {
                assert(bval(r.num) == 0);
                assert(tdiv(ns, ds) == 0);
            } else {
                assert(bval(nn) > 0) by {
                    if bval(nn) == 0 {
                        assert(qv == 0 && remv == 0);
                    }
                };
                assert(ns != 0 && a.n != 0);
                assert((a.n < 0) == self.num.neg);
                assert((b.n < 0) == rhs.num.neg);
                if rneg {
                    assert(!((ns < 0) <==> (ds < 0)));
                    assert(tdiv(ns, ds) == -qv);
                    assert(bval(r.num) == -qv);
                } else {
                    assert((ns < 0) <==> (ds < 0));
                    assert(tdiv(ns, ds) == qv);
                    assert(bval(r.num) == qv);
                }
            }
            assert(bval(r.num) == rat_tquot(a, b));
        }
        r
    }

    /// The value rounded to the nearest multiple of `10^-digits`, ties away
    /// from zero; exact whenever the current scale is at most `digits`.
    pub fn round(&self, digits: usize) -> (r: Scalar)
        requires
            swf(*self),
        ensures
            swf(r),
            r.scale == digits,
            bval(r.num) == rat_rdiv_n(sv(*self), rat_one(), digits as nat),
            sv(r) == rat_round(sv(*self), digits as nat),
    {
        let one = Scalar::one();
        self.div(&one, digits)
    }

    /// The square root of a non-negative value, rounded down at `digits`
    /// fractional digits after the value itself is rounded at `2 * digits`.
    pub fn sqrt(&self, digits: usize) -> (r: Scalar)
        requires
            swf(*self),
            bval(self.num) >= 0,
            digits <= usize::MAX / 2,
        ensures
            swf(r),
            r.scale == digits,
            !r.num.neg,
            bval(r.num) == isqrt(rat_rdiv_n(sv(*self), rat_one(), (2 * digits) as nat)),
            sv(r) == (Rat { n: isqrt(rat_rdiv_n(sv(*self), rat_one(), (2 * digits) as nat)),
            e: digits as nat }),
    {
        let m = self.round(2 * digits);
        proof {
            let a = sv(*self);
            lemma_p10_pos((2 * digits) as nat + 0);
            lemma_p10_pos(a.e);
            lemma_p10_zero();
            lemma_abs_mul_pos(a.n, p10((2 * digits) as nat + 0));
            lemma_rdiv_nonneg(a.n * p10((2 * digits) as nat + 0), 1 * p10(a.e));
        }
        let s = big_sqrt(&m.num);
        proof {
            lemma_isqrt_unique(bval(m.num), bval(s));
            lemma_mag_nonneg(s.mag@);
        }
        Scalar { num: Bint { neg: false, mag: s.mag }, scale: digits }
    }
}

/// Rewrite both operands at their common (finer) scale.
fn align(a: &Scalar, b: &Scalar) -> (r: (Bint, Bint))
    requires
        swf(*a),
        swf(*b),
    ensures
        bwf(r.0),
        bwf(r.1),
        bval(r.0) == rat_at(sv(*a), nmax(sv(*a).e, sv(*b).e)),
        bval(r.1) == rat_at(sv(*b), nmax(sv(*a).e, sv(*b).e)),
{
    proof {
        lemma_p10_zero();
    }
    if a.scale >= b.scale {
        let y = big_shift(&b.num, a.scale - b.scale);
        let x = big_copy(&a.num);
        (x, y)
    } else {
        let x = big_shift(&a.num, b.scale - a.scale);
        let y = big_copy(&b.num);
        (x, y)
    }
}

/// Relies on `bigdecimal::BigDecimal::exp` under the crate's default context
/// (100 significant digits), written back at scale 100: a deterministic
/// function of the argument's value, so its result is only given the name
/// `exp_of`.
#[verifier::external_body]
pub(crate) fn exp_raw(a: &Scalar) -> (r: Scalar)
    requires
        swf(*a),
        a.scale <= 0x7fff_ffff_ffff_ffff,
    ensures
        swf(r),
        sv(r) == exp_of(sv(*a)),
        r.scale == 100,
{
    let sign = if a.num.neg { Sign::Minus } else { Sign::Plus };
    let x = BigInt::from_radix_be(sign, &a.num.mag, 10).unwrap();
    let d = bigdecimal::BigDecimal::from_bigint(x, a.scale as i64).exp().with_scale(100);
    let (b, scale) = d.into_bigint_and_exponent();
    let (s2, mag) = b.to_radix_be(10);
    Scalar { num: Bint { neg: matches!(s2, Sign::Minus), mag }, scale: scale as usize }
}

} // verus!
