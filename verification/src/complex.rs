//! Complex numbers over the decimal scalar, with algebraic operators,
//! conjugate, magnitude, polar conversion and integer powers, and the
//! trigonometric primitives (sine, cosine, arctangent) computed from
//! truncated alternating Taylor series.

use vstd::prelude::*;
use vstd::arithmetic::power::{pow, lemma_pow_adds, lemma_pow_distributes};
use crate::rat::{
    Rat, p10, nmax, rat_int, rat_zero, rat_one, rat_add, rat_neg, rat_sub, rat_mul, rat_abs,
    rat_at, rat_eq, rat_lt, rat_pow, rat_rdiv_n, rat_rdiv, rat_round, rat_tquot, isqrt,
    lemma_p10_pos, lemma_p10_zero,
};
use crate::scalar::{Scalar, swf, sv, exp_of, exp_raw};
use crate::bigint::bval;

verus! {

/// Which division produced a `DivisionByZero`: callers react differently to a
/// zero complex divisor, a zero real part under `to_polar`'s angle ratio, and
/// a collapsed Durand-Kerner update divisor (duplicate converged roots).
#[derive(Debug)]
pub enum DivisionSite {
    ComplexDivision,
    ArctangentRatio,
    RootCollapse,
}

#[derive(Debug)]
pub enum Error {
    DivisionByZero(DivisionSite),
    /// Polynomial with fewer than two coefficients, or a zero leading coefficient.
    DegenerateInput,
    /// The iteration cap was reached; carries the best-known roots and their residuals.
    NotConverged { roots: Vec<Complex>, residuals: Vec<Scalar> },
}

/// The precision policy threaded through every series and solver call: the
/// supplied constant pi, the series truncation order, the number of fractional
/// digits each rounded step keeps, and the solver's iteration cap.
pub struct Config {
    pub pi: Scalar,
    pub terms: u64,
    pub digits: usize,
    pub max_iterations: u64,
}

pub open spec fn cfg_wf(cfg: Config) -> bool {
    &&& swf(cfg.pi)
    &&& rat_lt(rat_zero(), sv(cfg.pi))
    &&& cfg.pi.scale <= 10000
    &&& 1 <= cfg.digits <= 10000
    &&& 1 <= cfg.terms <= 10000
    &&& 1 <= cfg.max_iterations <= 1000000
}

/// The exact value of the default pi constant,
/// `3.1415926535897932384626433832795028841971`: the numerator is the 41-digit
/// decimal mantissa, written as three concatenated segments.
pub open spec fn standard_pi() -> Rat {
    Rat {
        n: (31415926535897int * 100000000000000 + 93238462643383) * 10000000000000
            + 2795028841971,
        e: 40,
    }
}

impl Config {
    /// The default policy: pi at 40 fractional digits, 30 series terms,
    /// 50 rounded digits, and a cap of 10000 iterations.
    pub fn standard() -> (r: Config)
        ensures
            cfg_wf(r),
            sv(r.pi) == standard_pi(),
            r.terms == 30,
            r.digits == 50,
            r.max_iterations == 10000,
    {
        // pi = 3.1415926535897932384626433832795028841971, assembled exactly
        // from three integer segments
        let x = Scalar::from_int(31415926535897);
        let y = Scalar::from_int(93238462643383);
        let z = Scalar::from_int(2795028841971);
        let p14 = Scalar::from_int(100000000000000);
        let p13 = Scalar::from_int(10000000000000);
        let s1 = x.mul(&p14);
        let s2 = s1.add(&y);
        let s3 = s2.mul(&p13);
        let m = s3.add(&z);
        let pi = Scalar { num: m.num, scale: 40 };
        proof {
            lemma_p10_zero();
            lemma_p10_pos(40);
            crate::rat::lemma_rat_at_self(sv(s1));
            crate::rat::lemma_rat_at_self(sv(y));
            crate::rat::lemma_rat_at_self(sv(s3));
            crate::rat::lemma_rat_at_self(sv(z));
            assert(bval(pi.num) == standard_pi().n);
            crate::rat::lemma_rat_sign(sv(pi));
            assert(standard_pi().n > 0);
        }
        Config { pi, terms: 30, digits: 50, max_iterations: 10000 }
    }
}

/// The model of a complex number: a pair of exact decimal rationals.
pub ghost struct CRat {
    pub re: Rat,
    pub im: Rat,
}

pub open spec fn c_zero() -> CRat {
    CRat { re: rat_zero(), im: rat_zero() }
}

pub open spec fn c_one() -> CRat {
    CRat { re: rat_one(), im: rat_zero() }
}

pub open spec fn c_add(a: CRat, b: CRat) -> CRat {
    CRat { re: rat_add(a.re, b.re), im: rat_add(a.im, b.im) }
}

pub open spec fn c_neg(a: CRat) -> CRat {
    CRat { re: rat_neg(a.re), im: rat_neg(a.im) }
}

pub open spec fn c_sub(a: CRat, b: CRat) -> CRat {
    c_add(a, c_neg(b))
}

pub open spec fn c_conj(a: CRat) -> CRat {
    CRat { re: a.re, im: rat_neg(a.im) }
}

pub open spec fn c_mul(a: CRat, b: CRat) -> CRat {
    CRat {
        re: rat_sub(rat_mul(a.re, b.re), rat_mul(a.im, b.im)),
        im: rat_add(rat_mul(a.re, b.im), rat_mul(a.im, b.re)),
    }
}

/// `a` multiplied by itself `k` times.
pub open spec fn c_pow(a: CRat, k: nat) -> CRat
    decreases k,
{
    if k == 0 {
        c_one()
    } else {
        c_mul(c_pow(a, (k - 1) as nat), a)
    }
}

/// Component-wise value equality.
pub open spec fn c_eq(a: CRat, b: CRat) -> bool {
    rat_eq(a.re, b.re) && rat_eq(a.im, b.im)
}

/// `|b|^2` as an exact rational.
pub open spec fn c_norm2(b: CRat) -> Rat {
    rat_add(rat_mul(b.re, b.re), rat_mul(b.im, b.im))
}

/// Complex division through the conjugate, each component rounded to the
/// nearest multiple of `10^-d`.
pub open spec fn c_div_rounded(a: CRat, b: CRat, d: nat) -> CRat {
    let den = c_norm2(b);
    CRat {
        re: rat_rdiv(rat_add(rat_mul(a.re, b.re), rat_mul(a.im, b.im)), den, d),
        im: rat_rdiv(rat_sub(rat_mul(a.im, b.re), rat_mul(a.re, b.im)), den, d),
    }
}

/// The magnitude `sqrt(re^2 + im^2)`, the inner value rounded at `2 * d`
/// digits and the root taken at `d` digits.
pub open spec fn cabs_val(z: CRat, d: nat) -> Rat {
    Rat { n: isqrt(rat_rdiv_n(c_norm2(z), rat_one(), 2 * d)), e: d }
}

#[derive(Debug)]
pub struct Complex {
    pub real: Scalar,
    pub imaginary: Scalar,
}

pub open spec fn cwf(c: Complex) -> bool {
    swf(c.real) && swf(c.imaginary)
}

/// The pair of rationals a complex value denotes.
pub open spec fn cv(c: Complex) -> CRat {
    CRat { re: sv(c.real), im: sv(c.imaginary) }
}

/// The coarser of the two component scales.
pub open spec fn cscale(c: Complex) -> nat {
    nmax(c.real.scale as nat, c.imaginary.scale as nat)
}

impl Complex {
    /// The complex zero.
    pub fn new() -> (r: Complex)
        ensures
            cwf(r),
            cv(r) == c_zero(),
            cscale(r) == 0,
    {
        Complex { real: Scalar::zero(), imaginary: Scalar::zero() }
    }

    /// The complex number with the given integer real and imaginary parts.
    pub fn init(re: i64, im: i64) -> (r: Complex)
        ensures
            cwf(r),
            cv(r) == (CRat { re: rat_int(re as int), im: rat_int(im as int) }),
            cscale(r) == 0,
    {
        Complex { real: Scalar::from_int(re), imaginary: Scalar::from_int(im) }
    }

    /// The complex number with the given scalar real and imaginary parts.
    pub fn from_big_decimal(re: &Scalar, im: &Scalar) -> (r: Complex)
        requires
            swf(*re),
            swf(*im),
        ensures
            cwf(r),
            cv(r) == (CRat { re: sv(*re), im: sv(*im) }),
            r.real.scale == re.scale,
            r.imaginary.scale == im.scale,
    {
        Complex { real: re.dup(), imaginary: im.dup() }
    }

    /// A copy denoting the same value.
    pub fn dup(&self) -> (r: Complex)
        requires
            cwf(*self),
        ensures
            cwf(r),
            cv(r) == cv(*self),
            r.real.scale == self.real.scale,
            r.imaginary.scale == self.imaginary.scale,
    {
        Complex { real: self.real.dup(), imaginary: self.imaginary.dup() }
    }

    /// The conjugate: the imaginary part negated.
    pub fn conjugate(target: &Complex) -> (r: Complex)
        requires
            cwf(*target),
        ensures
            cwf(r),
            cv(r) == c_conj(cv(*target)),
            cscale(r) == cscale(*target),
    {
        Complex { real: target.real.dup(), imaginary: target.imaginary.neg() }
    }

    /// Exact complex sum.
    pub fn add(&self, rhs: &Complex) -> (r: Complex)
        requires
            cwf(*self),
            cwf(*rhs),
        ensures
            cwf(r),
            cv(r) == c_add(cv(*self), cv(*rhs)),
            cscale(r) <= nmax(cscale(*self), cscale(*rhs)),
    {
        Complex { real: self.real.add(&rhs.real), imaginary: self.imaginary.add(&rhs.imaginary) }
    }

    /// Exact complex difference.
    pub fn sub(&self, rhs: &Complex) -> (r: Complex)
        requires
            cwf(*self),
            cwf(*rhs),
        ensures
            cwf(r),
            cv(r) == c_sub(cv(*self), cv(*rhs)),
            cscale(r) <= nmax(cscale(*self), cscale(*rhs)),
    {
        Complex {
            real: self.real.sub(&rhs.real),
            imaginary: self.imaginary.sub(&rhs.imaginary),
        }
    }

    /// Exact complex product.
    pub fn mul(&self, rhs: &Complex) -> (r: Complex)
        requires
            cwf(*self),
            cwf(*rhs),
            cscale(*self) + cscale(*rhs) <= usize::MAX,
        ensures
            cwf(r),
            cv(r) == c_mul(cv(*self), cv(*rhs)),
            cscale(r) <= cscale(*self) + cscale(*rhs),
    {
        let rr = self.real.mul(&rhs.real);
        let ii = self.imaginary.mul(&rhs.imaginary);
        let ri = self.real.mul(&rhs.imaginary);
        let ir = self.imaginary.mul(&rhs.real);
        Complex { real: rr.sub(&ii), imaginary: ri.add(&ir) }
    }

    /// Complex division through the conjugate, both components rounded at
    /// `digits` fractional digits. Fails if and only if the divisor is zero.
    pub fn div(&self, rhs: &Complex, digits: usize) -> (r: Result<Complex, Error>)
        requires
            cwf(*self),
            cwf(*rhs),
            cscale(*self) + cscale(*rhs) <= 1000000000,
            digits <= 10000,
        ensures
            r is Err <==> c_eq(cv(*rhs), c_zero()),
            r matches Err(e) ==> e == Error::DivisionByZero(DivisionSite::ComplexDivision),
            r matches Ok(z) ==> cwf(z) && cv(z) == c_div_rounded(cv(*self), cv(*rhs), digits as nat)
                && z.real.scale == digits && z.imaginary.scale == digits,
    {
        let den = rhs.real.mul(&rhs.real).add(&rhs.imaginary.mul(&rhs.imaginary));
        let zero = Scalar::zero();
        proof {
            let b = cv(*rhs);
            let m = nmax(rat_mul(b.re, b.re).e, rat_mul(b.im, b.im).e);
            lemma_p10_pos((m - rat_mul(b.re, b.re).e) as nat);
            lemma_p10_pos((m - rat_mul(b.im, b.im).e) as nat);
            lemma_p10_pos((nmax(c_norm2(b).e, 0nat) - c_norm2(b).e) as nat);
            lemma_p10_zero();
            assert(sv(den) == c_norm2(b));
            let pre = p10((m - rat_mul(b.re, b.re).e) as nat);
            let pim = p10((m - rat_mul(b.im, b.im).e) as nat);
            assert((b.re.n * b.re.n * pre + b.im.n * b.im.n * pim == 0) <==> (b.re.n == 0
                && b.im.n == 0)) by (nonlinear_arith)
                requires
                    pre > 0,
                    pim > 0,
            ;
            // zero test on the denominator decides zero of both components
            crate::rat::lemma_rat_sign(sv(den));
            crate::rat::lemma_rat_sign(b.re);
            crate::rat::lemma_rat_sign(b.im);
        }
        if den.eq_val(&zero) {
            return Err(Error::DivisionByZero(DivisionSite::ComplexDivision));
        }
        let nre = self.real.mul(&rhs.real).add(&self.imaginary.mul(&rhs.imaginary));
        let nim = self.imaginary.mul(&rhs.real).sub(&self.real.mul(&rhs.imaginary));
        Ok(Complex { real: nre.div(&den, digits), imaginary: nim.div(&den, digits) })
    }

    /// The integer power by direct repeated multiplication; an exponent at or
    /// below zero yields one, as an empty product.
    pub fn complex_pow(target: &Complex, pw: i32) -> (r: Complex)
        requires
            cwf(*target),
            cscale(*target) <= 10000,
            pw <= 100000,
        ensures
            cwf(r),
            cv(r) == c_pow(cv(*target), if pw <= 0 { 0nat } else { pw as nat }),
            cscale(r) <= cscale(*target) * (if pw <= 0 { 0nat } else { pw as nat }),
    {
        let mut result = Complex::init(1, 0);
        let mut i: i32 = 0;
        proof {
            assert(cv(result) == c_one());
        }
        while i < pw
            invariant
                cwf(*target),
                cscale(*target) <= 10000,
                pw <= 100000,
                0 <= i,
                i <= pw || (pw <= 0 && i == 0),
                cwf(result),
                cv(result) == c_pow(cv(*target), i as nat),
                cscale(result) <= cscale(*target) * i,
            decreases pw - i,
        {
            proof {
                assert(cscale(result) + cscale(*target) <= 10000 * 100000 + 10000)
                    by (nonlinear_arith)
                    requires
                        cscale(result) <= cscale(*target) * i,
                        cscale(*target) <= 10000,
                        0 <= i < 100000,
                ;
            }
            result = result.mul(target);
            i = i + 1;
            proof {
                assert(cscale(result) <= cscale(*target) * i) by (nonlinear_arith)
                    requires
                        cscale(result) <= cscale(*target) * (i - 1) + cscale(*target),
                ;
            }
        }
        result
    }

    /// Binary exponentiation of a scalar to a non-negative integer power:
    /// exactly the base multiplied by itself `exponent` times, in
    /// `O(log exponent)` multiplications. Exponent zero yields one for every
    /// base, zero included.
    pub fn fast_pow(base: &Scalar, exponent: u64) -> (r: Scalar)
        requires
            swf(*base),
            base.scale <= 10000,
            exponent <= 100000,
        ensures
            swf(r),
            sv(r) == rat_pow(sv(*base), exponent as nat),
            r.scale as int == exponent as int * base.scale as int,
    {
        let mut result = Scalar::one();
        let mut cur = base.dup();
        let mut e = exponent;
        proof {
            assert(exponent >= 1 ==> base.scale as int <= exponent as int * base.scale as int)
                by (nonlinear_arith);
            assert(1 * pow(sv(*base).n, exponent as nat) == pow(sv(*base).n, exponent as nat))
                by (nonlinear_arith);
            assert(exponent as int * base.scale as int <= 1000000000) by (nonlinear_arith)
                requires
                    exponent <= 100000,
                    base.scale <= 10000,
            ;
        }
        while e > 0
            invariant
                swf(result),
                swf(cur),
                base.scale <= 10000,
                exponent <= 100000,
                pow(sv(*base).n, exponent as nat) == bval(result.num) * pow(bval(cur.num),
                e as nat),
                exponent as int * base.scale as int == result.scale as int + e as int
                    * cur.scale as int,
                result.scale as int <= exponent as int * base.scale as int,
                e >= 1 ==> cur.scale as int <= exponent as int * base.scale as int,
                exponent as int * base.scale as int <= 1000000000,
            decreases e,
        {
            let ghost rn = bval(result.num);
            let ghost cn = bval(cur.num);
            let ghost eo = e as int;
            let ghost rs = result.scale as int;
            let ghost cs = cur.scale as int;
            proof {
                assert(result.scale as int + cur.scale as int <= 2000000000);
                assert(cur.scale as int + cur.scale as int <= 2000000000);
            }
            if e % 2 == 1 {
                result = result.mul(&cur);
            }
            cur = cur.mul(&cur);
            e = e / 2;
            proof {
                let en = e as int;
                lemma_pow_distributes(cn, cn, e as nat);
                lemma_pow_adds(cn, e as nat, e as nat);
                assert(pow(cn * cn, e as nat) == pow(cn, (2 * en) as nat));
                if eo % 2 == 1 {
                    assert(pow(cn, eo as nat) == cn * pow(cn, (2 * en) as nat)) by {
                        assert(eo == 2 * en + 1);
                        lemma_pow_adds(cn, 1, (2 * en) as nat);
                        vstd::arithmetic::power::lemma_pow1(cn);
                        assert(pow(cn, (1 + 2 * en) as nat) == pow(cn, 1) * pow(cn, (2 * en)
                            as nat));
                        assert(pow(cn, 1) * pow(cn, (2 * en) as nat) == cn * pow(cn, (2 * en)
                            as nat)) by (nonlinear_arith)
                            requires
                                pow(cn, 1) == cn,
                        ;
                    };
                    assert(rn * pow(cn, eo as nat) == (rn * cn) * pow(cn * cn, e as nat))
                        by (nonlinear_arith)
                        requires
                            pow(cn, eo as nat) == cn * pow(cn * cn, e as nat),
                    ;
                    assert(rs + eo * cs == (rs + cs) + en * (2 * cs)) by (nonlinear_arith)
                        requires
                            eo == 2 * en + 1,
                    ;
                } else {
                    assert(eo == 2 * en);
                    assert(rn * pow(cn, eo as nat) == rn * pow(cn * cn, e as nat));
                    assert(rs + eo * cs == rs + en * (2 * cs)) by (nonlinear_arith)
                        requires
                            eo == 2 * en,
                    ;
                }
                if e >= 1 {
                    assert(cur.scale as int <= e as int * cur.scale as int) by (nonlinear_arith)
                        requires
                            e >= 1,
                            cur.scale >= 0,
                    ;
                }
            }
        }
        proof {
            lemma_rat_pow_parts(sv(*base), exponent as nat);
            vstd::arithmetic::power::lemma_pow0(bval(cur.num));
            assert(bval(result.num) * 1 == bval(result.num)) by (nonlinear_arith);
        }
        result
    }
}

/// `n!`.
pub open spec fn fact(n: nat) -> nat
    decreases n,
{
    if n == 0 {
        1
    } else {
        n * fact((n - 1) as nat)
    }
}

/// Term `j` of the cosine series: `x^(2j) / (2j)!`, rounded at `d` digits.
pub open spec fn cos_term(x: Rat, j: nat, d: nat) -> Rat {
    rat_rdiv(rat_pow(x, 2 * j), rat_int(fact(2 * j) as int), d)
}

/// The alternating cosine series truncated after `k` terms.
pub open spec fn cos_sum(x: Rat, k: nat, d: nat) -> Rat
    decreases k,
{
    if k == 0 {
        rat_zero()
    } else {
        let j = (k - 1) as nat;
        let t = cos_term(x, j, d);
        rat_add(cos_sum(x, j, d), if j % 2 == 1 { rat_neg(t) } else { t })
    }
}

/// Term `j` of the sine series: `x^(2j+1) / (2j+1)!`, rounded at `d` digits.
pub open spec fn sin_term(x: Rat, j: nat, d: nat) -> Rat {
    rat_rdiv(rat_pow(x, 2 * j + 1), rat_int(fact(2 * j + 1) as int), d)
}

/// The alternating sine series truncated after `k` terms.
pub open spec fn sin_sum(x: Rat, k: nat, d: nat) -> Rat
    decreases k,
{
    if k == 0 {
        rat_zero()
    } else {
        let j = (k - 1) as nat;
        let t = sin_term(x, j, d);
        rat_add(sin_sum(x, j, d), if j % 2 == 1 { rat_neg(t) } else { t })
    }
}

/// The alternating arctangent series `sum (-1)^(i+1) x^(2i-1) / (2i-1)`
/// truncated after `k` terms, each term rounded at `d` digits.
pub open spec fn atan_sum(x: Rat, k: nat, d: nat) -> Rat
    decreases k,
{
    if k == 0 {
        rat_zero()
    } else {
        let t = rat_rdiv(rat_pow(x, (2 * k - 1) as nat), rat_int(2 * k - 1), d);
        rat_add(atan_sum(x, (k - 1) as nat, d), if k % 2 == 0 { rat_neg(t) } else { t })
    }
}

/// The angle reduced by the integer multiple of `2 pi` nearest toward zero.
pub open spec fn norm_angle(a: Rat, pi: Rat) -> Rat {
    let t = rat_mul(rat_int(2), pi);
    rat_sub(a, rat_mul(rat_int(rat_tquot(a, t)), t))
}

/// What `calc_cos` returns: the truncated series at the normalized angle
/// rounded to `d` digits.
pub open spec fn cos_of(a: Rat, pi: Rat, terms: nat, d: nat) -> Rat {
    cos_sum(rat_round(norm_angle(a, pi), d), terms, d)
}

/// What `calc_sin` returns.
pub open spec fn sin_of(a: Rat, pi: Rat, terms: nat, d: nat) -> Rat {
    sin_sum(rat_round(norm_angle(a, pi), d), terms, d)
}

/// The arctangent branch table on arguments `x` with `|x| <= 1`: the series
/// inside the unit interval, `pi/4` (rounded at `d`) at the endpoints.
pub open spec fn atan_inner(x: Rat, pi: Rat, terms: nat, d: nat) -> Rat {
    if rat_lt(rat_abs(x), rat_one()) {
        atan_sum(x, terms, d)
    } else if rat_eq(x, rat_one()) {
        rat_rdiv(pi, rat_int(4), d)
    } else if rat_eq(x, rat_neg(rat_one())) {
        rat_neg(rat_rdiv(pi, rat_int(4), d))
    } else {
        atan_sum(x, terms, d)
    }
}

/// What `calc_arctan` returns on the rounded argument `x`: the series for
/// `|x| < 1`, `pi/4` at `x = 1`, `-pi/4` at `x = -1`, and otherwise the
/// reduction `+-pi/2 - arctan(1/x)` with the reciprocal rounded at `d`.
pub open spec fn atan_of(x: Rat, pi: Rat, terms: nat, d: nat) -> Rat {
    if rat_lt(rat_abs(x), rat_one()) || rat_eq(x, rat_one()) || rat_eq(x, rat_neg(rat_one())) {
        atan_inner(x, pi, terms, d)
    } else {
        let recip = rat_rdiv(rat_one(), x, d);
        let inner = atan_inner(recip, pi, terms, d);
        let half = rat_rdiv(pi, rat_int(2), d);
        if rat_lt(x, rat_zero()) {
            rat_sub(rat_neg(half), inner)
        } else {
            rat_sub(half, inner)
        }
    }
}

/// What `to_polar` returns as the angle: the arctangent of the rounded ratio
/// `im / re`.
pub open spec fn polar_angle(z: CRat, pi: Rat, terms: nat, d: nat) -> Rat {
    atan_of(rat_round(rat_rdiv(z.im, z.re, d), d), pi, terms, d)
}

/// What the polar power path returns: magnitude raised by binary
/// exponentiation, angle multiplied by the exponent, then converted back.
pub open spec fn polar_pow(z: CRat, k: nat, pi: Rat, terms: nat, d: nat) -> CRat {
    let mk = rat_pow(cabs_val(z, d), k);
    let ak = rat_mul(polar_angle(z, pi, terms, d), rat_int(k as int));
    CRat {
        re: rat_mul(mk, cos_of(ak, pi, terms, d)),
        im: rat_mul(mk, sin_of(ak, pi, terms, d)),
    }
}

pub proof fn lemma_fact_pos(n: nat)
    ensures
        fact(n) >= 1,
    decreases n,
{
    if n > 0 {
        lemma_fact_pos((n - 1) as nat);
        assert(fact(n) == n * fact((n - 1) as nat));
        assert(n * fact((n - 1) as nat) >= 1) by (nonlinear_arith)
            requires
                n >= 1,
                fact((n - 1) as nat) >= 1,
        ;
    }
}

pub proof fn lemma_fact_step(n: nat)
    ensures
        fact(n + 2) == fact(n) * ((n + 1) * (n + 2)),
{
    assert(fact(n + 2) == (n + 2) * fact(n + 1));
    assert(fact(n + 1) == (n + 1) * fact(n));
    assert((n + 2) * ((n + 1) * fact(n)) == fact(n) * ((n + 1) * (n + 2))) by (nonlinear_arith);
}

impl Complex {
    /// The angle with the truncated integer multiple of `2 pi` subtracted;
    /// exact, given the configuration's pi constant.
    pub fn normalize_angle(angle: &Scalar, cfg: &Config) -> (r: Scalar)
        requires
            swf(*angle),
            cfg_wf(*cfg),
            angle.scale <= 1000000,
        ensures
            swf(r),
            sv(r) == norm_angle(sv(*angle), sv(cfg.pi)),
            r.scale <= 1000000,
    {
        let two = Scalar::from_int(2);
        let two_pi = two.mul(&cfg.pi);
        proof {
            crate::rat::lemma_rat_sign(sv(cfg.pi));
            assert(sv(two_pi).n == 2 * sv(cfg.pi).n);
            assert(bval(two_pi.num) != 0);
        }
        let k = angle.div_trunc(&two_pi);
        let prod = k.mul(&two_pi);
        let r = angle.sub(&prod);
        proof {
            assert(sv(r).e == nmax(sv(*angle).e, sv(prod).e));
        }
        r
    }

    /// Cosine by the truncated alternating Taylor series, on the normalized
    /// angle rounded at the configured digits; the running factorial is grown
    /// incrementally, two factors per term.
    pub fn calc_cos(angle: &Scalar, cfg: &Config) -> (r: Scalar)
        requires
            swf(*angle),
            cfg_wf(*cfg),
            angle.scale <= 1000000,
        ensures
            swf(r),
            sv(r) == cos_of(sv(*angle), sv(cfg.pi), cfg.terms as nat, cfg.digits as nat),
            r.scale == cfg.digits,
    {
        let na = Complex::normalize_angle(angle, cfg);
        let x = na.round(cfg.digits);
        let ghost xr = rat_round(norm_angle(sv(*angle), sv(cfg.pi)), cfg.digits as nat);
        let mut acc = Scalar::zero();
        let mut f = Scalar::one();
        let mut j: u64 = 0;
        proof {
            lemma_fact_pos(0);
        }
        while j < cfg.terms
            invariant
                cfg_wf(*cfg),
                swf(x),
                x.scale == cfg.digits,
                sv(x) == xr,
                j <= cfg.terms,
                swf(acc),
                swf(f),
                f.scale == 0,
                bval(f.num) == fact((2 * j) as nat) as int,
                sv(acc) == cos_sum(xr, j as nat, cfg.digits as nat),
                j >= 1 ==> acc.scale == cfg.digits,
            decreases cfg.terms - j,
        {
            proof {
                lemma_fact_pos((2 * j) as nat);
            }
            let pw = Complex::fast_pow(&x, 2 * j);
            let t = pw.div(&f, cfg.digits);
            let even = j % 2 == 0;
            acc = if even {
                acc.add(&t)
            } else {
                acc.sub(&t)
            };
            proof {
                assert(sv(t) == cos_term(xr, j as nat, cfg.digits as nat));
                assert(cos_sum(xr, (j + 1) as nat, cfg.digits as nat) == rat_add(cos_sum(xr,
                j as nat, cfg.digits as nat), if (j as nat) % 2 == 1 { rat_neg(cos_term(xr,
                j as nat, cfg.digits as nat)) } else { cos_term(xr, j as nat, cfg.digits as nat)
                }));
            }
            proof {
                assert((2 * j + 1) * (2 * j + 2) < 0x7fffffff) by (nonlinear_arith)
                    requires
                        j < 10000,
                ;
            }
            let c = (2 * j + 1) * (2 * j + 2);
            f = f.mul(&Scalar::from_int(c as i64));
            j = j + 1;
            proof {
                lemma_fact_step((2 * (j - 1)) as nat);
                assert(fact((2 * j) as nat) as int == fact((2 * (j - 1)) as nat) as int * (c
                    as int));
            }
        }
        acc
    }

    /// Sine by the truncated alternating Taylor series, on the normalized
    /// angle rounded at the configured digits.
    pub fn calc_sin(angle: &Scalar, cfg: &Config) -> (r: Scalar)
        requires
            swf(*angle),
            cfg_wf(*cfg),
            angle.scale <= 1000000,
        ensures
            swf(r),
            sv(r) == sin_of(sv(*angle), sv(cfg.pi), cfg.terms as nat, cfg.digits as nat),
            r.scale == cfg.digits,
    {
        let na = Complex::normalize_angle(angle, cfg);
        let x = na.round(cfg.digits);
        let ghost xr = rat_round(norm_angle(sv(*angle), sv(cfg.pi)), cfg.digits as nat);
        let mut acc = Scalar::zero();
        let mut f = Scalar::one();
        let mut j: u64 = 0;
        proof {
            assert(fact(1nat) == 1 * fact(0nat));
            assert(fact(0nat) == 1);
        }
        while j < cfg.terms
            invariant
                cfg_wf(*cfg),
                swf(x),
                x.scale == cfg.digits,
                sv(x) == xr,
                j <= cfg.terms,
                swf(acc),
                swf(f),
                f.scale == 0,
                bval(f.num) == fact((2 * j + 1) as nat) as int,
                sv(acc) == sin_sum(xr, j as nat, cfg.digits as nat),
                j >= 1 ==> acc.scale == cfg.digits,
            decreases cfg.terms - j,
        {
            proof {
                lemma_fact_pos((2 * j + 1) as nat);
            }
            let pw = Complex::fast_pow(&x, 2 * j + 1);
            let t = pw.div(&f, cfg.digits);
            let even = j % 2 == 0;
            acc = if even {
                acc.add(&t)
            } else {
                acc.sub(&t)
            };
            proof {
                assert(sv(t) == sin_term(xr, j as nat, cfg.digits as nat));
                assert(sin_sum(xr, (j + 1) as nat, cfg.digits as nat) == rat_add(sin_sum(xr,
                j as nat, cfg.digits as nat), if (j as nat) % 2 == 1 { rat_neg(sin_term(xr,
                j as nat, cfg.digits as nat)) } else { sin_term(xr, j as nat, cfg.digits as nat)
                }));
            }
            proof {
                assert((2 * j + 2) * (2 * j + 3) < 0x7fffffff) by (nonlinear_arith)
                    requires
                        j < 10000,
                ;
            }
            let c = (2 * j + 2) * (2 * j + 3);
            f = f.mul(&Scalar::from_int(c as i64));
            j = j + 1;
            proof {
                lemma_fact_step((2 * (j - 1) + 1) as nat);
                assert(fact((2 * j + 1) as nat) as int == fact((2 * (j - 1) + 1) as nat) as int
                    * (c as int));
            }
        }
        acc
    }

    /// Arctangent with branch reduction: the series for `|x| < 1` (on the
    /// argument rounded at the configured digits), `pi/4` at `x = +-1`, and
    /// `+-pi/2 - arctan(1/x)` outside the unit interval, recursing at most
    /// once through the rounded reciprocal.
    pub fn calc_arctan(num: &Scalar, cfg: &Config) -> (r: Scalar)
        requires
            swf(*num),
            cfg_wf(*cfg),
        ensures
            swf(r),
            sv(r) == atan_of(rat_round(sv(*num), cfg.digits as nat), sv(cfg.pi), cfg.terms
                as nat, cfg.digits as nat),
            r.scale == cfg.digits,
    {
        let x = num.round(cfg.digits);
        let one = Scalar::one();
        let four = Scalar::from_int(4);
        let ghost xr = rat_round(sv(*num), cfg.digits as nat);
        proof {
            crate::rat::lemma_rat_sign(sv(x));
        }
        if x.abs().lt(&one) {
            atan_series(&x, cfg)
        } else if x.eq_val(&one) {
            cfg.pi.div(&four, cfg.digits)
        } else if x.eq_val(&one.neg()) {
            cfg.pi.div(&four, cfg.digits).neg()
        } else {
            proof {
                assert(bval(x.num) != 0) by {
                    crate::rat::lemma_rat_sign(rat_abs(sv(x)));
                    if sv(x).n == 0 {
                        assert(rat_abs(sv(x)).n == 0);
                        crate::rat::lemma_p10_pos((nmax(sv(x).e, 0nat) - 0nat) as nat);
                        assert(rat_lt(rat_abs(sv(x)), rat_one())) by (nonlinear_arith)
                            requires
                                rat_abs(sv(x)).n == 0,
                                p10((nmax(rat_abs(sv(x)).e, rat_one().e) - rat_one().e)
                                    as nat) > 0,
                                rat_at(rat_abs(sv(x)), nmax(rat_abs(sv(x)).e, rat_one().e))
                                    == rat_abs(sv(x)).n * p10((nmax(rat_abs(sv(x)).e,
                                rat_one().e) - rat_abs(sv(x)).e) as nat),
                                rat_at(rat_one(), nmax(rat_abs(sv(x)).e, rat_one().e)) == 1
                                    * p10((nmax(rat_abs(sv(x)).e, rat_one().e) - rat_one().e)
                                    as nat),
                                rat_lt(rat_abs(sv(x)), rat_one()) == (rat_at(rat_abs(sv(x)),
                                nmax(rat_abs(sv(x)).e, rat_one().e)) < rat_at(rat_one(),
                                nmax(rat_abs(sv(x)).e, rat_one().e))),
                        ;
                    }
                };
            }
            let recip = one.div(&x, cfg.digits);
            let inner = if recip.abs().lt(&one) {
                atan_series(&recip, cfg)
            } else if recip.eq_val(&one) {
                cfg.pi.div(&four, cfg.digits)
            } else if recip.eq_val(&one.neg()) {
                cfg.pi.div(&four, cfg.digits).neg()
            } else {
                atan_series(&recip, cfg)
            };
            let half = cfg.pi.div(&Scalar::from_int(2), cfg.digits);
            let zero = Scalar::zero();
            if x.lt(&zero) {
                half.neg().sub(&inner)
            } else {
                half.sub(&inner)
            }
        }
    }

    /// The magnitude `sqrt(re^2 + im^2)`, rounded as `cabs_val` describes.
    pub fn abs(&self, cfg: &Config) -> (r: Scalar)
        requires
            cwf(*self),
            cfg_wf(*cfg),
            cscale(*self) <= 100000000,
        ensures
            swf(r),
            sv(r) == cabs_val(cv(*self), cfg.digits as nat),
            r.scale == cfg.digits,
            !r.num.neg,
    {
        let m2 = self.real.mul(&self.real).add(&self.imaginary.mul(&self.imaginary));
        proof {
            let b = cv(*self);
            let m = nmax(rat_mul(b.re, b.re).e, rat_mul(b.im, b.im).e);
            lemma_p10_pos((m - rat_mul(b.re, b.re).e) as nat);
            lemma_p10_pos((m - rat_mul(b.im, b.im).e) as nat);
            assert(sv(m2) == c_norm2(b));
            let pre = p10((m - rat_mul(b.re, b.re).e) as nat);
            let pim = p10((m - rat_mul(b.im, b.im).e) as nat);
            assert(b.re.n * b.re.n * pre + b.im.n * b.im.n * pim >= 0) by (nonlinear_arith)
                requires
                    pre > 0,
                    pim > 0,
            ;
        }
        m2.sqrt(cfg.digits)
    }

    /// Convert to polar form: the magnitude and the angle
    /// `arctan(imaginary / real)`. Fails if and only if the real part is zero,
    /// since the angle ratio is then a division by zero.
    pub fn to_polar(target: &Complex, cfg: &Config) -> (r: Result<(Scalar, Scalar), Error>)
        requires
            cwf(*target),
            cfg_wf(*cfg),
            cscale(*target) <= 1000000,
        ensures
            r is Err <==> rat_eq(sv(target.real), rat_zero()),
            r matches Err(e) ==> e == Error::DivisionByZero(DivisionSite::ArctangentRatio),
            r matches Ok(p) ==> swf(p.0) && swf(p.1) && sv(p.0) == cabs_val(cv(*target),
            cfg.digits as nat) && sv(p.1) == polar_angle(cv(*target), sv(cfg.pi), cfg.terms
                as nat, cfg.digits as nat) && p.0.scale == cfg.digits && p.1.scale == cfg.digits,
    {
        let zero = Scalar::zero();
        proof {
            crate::rat::lemma_rat_sign(sv(target.real));
        }
        if target.real.eq_val(&zero) {
            return Err(Error::DivisionByZero(DivisionSite::ArctangentRatio));
        }
        let mag = target.abs(cfg);
        let ratio = target.imaginary.div(&target.real, cfg.digits);
        let theta = Complex::calc_arctan(&ratio, cfg);
        Ok((mag, theta))
    }

    /// Convert back from polar form:
    /// `(magnitude * cos(angle), magnitude * sin(angle))`.
    pub fn from_polar(r: &Scalar, theta: &Scalar, cfg: &Config) -> (res: Complex)
        requires
            swf(*r),
            swf(*theta),
            cfg_wf(*cfg),
            r.scale <= 100000000,
            theta.scale <= 1000000,
        ensures
            cwf(res),
            cv(res) == (CRat {
                re: rat_mul(sv(*r), cos_of(sv(*theta), sv(cfg.pi), cfg.terms as nat, cfg.digits
                    as nat)),
                im: rat_mul(sv(*r), sin_of(sv(*theta), sv(cfg.pi), cfg.terms as nat, cfg.digits
                    as nat)),
            }),
    {
        let c = Complex::calc_cos(theta, cfg);
        let s = Complex::calc_sin(theta, cfg);
        Complex { real: r.mul(&c), imaginary: r.mul(&s) }
    }

    /// The integer power through the polar form: the magnitude raised by
    /// `fast_pow`, the angle multiplied by the exponent, converted back. Fails
    /// if and only if the real part is zero (no polar angle exists).
    pub fn pow(target: &Complex, pw: i32, cfg: &Config) -> (r: Result<Complex, Error>)
        requires
            cwf(*target),
            cfg_wf(*cfg),
            cscale(*target) <= 1000000,
            0 <= pw <= 1000,
        ensures
            r is Err <==> rat_eq(sv(target.real), rat_zero()),
            r matches Err(e) ==> e == Error::DivisionByZero(DivisionSite::ArctangentRatio),
            r matches Ok(z) ==> cwf(z) && cv(z) == polar_pow(cv(*target), pw as nat, sv(cfg.pi),
            cfg.terms as nat, cfg.digits as nat),
    {
        match Complex::to_polar(target, cfg) {
            Err(e) => Err(e),
            Ok((mag, theta)) => {
                let mk = Complex::fast_pow(&mag, pw as u64);
                proof {
                    assert(mk.scale as int <= 1000 * 10000) by (nonlinear_arith)
                        requires
                            mk.scale as int == pw as int * mag.scale as int,
                            0 <= pw <= 1000,
                            mag.scale <= 10000,
                    ;
                }
                let ak = theta.mul(&Scalar::from_int(pw as i64));
                Ok(Complex::from_polar(&mk, &ak, cfg))
            },
        }
    }

    /// The complex exponential: `e^re * (cos(im) + i sin(im))`, the real
    /// factor computed by the backing decimal library's exponential.
    pub fn exp(target: &Complex, cfg: &Config) -> (r: Complex)
        requires
            cwf(*target),
            cfg_wf(*cfg),
            cscale(*target) <= 1000000,
        ensures
            cwf(r),
            cv(r) == (CRat {
                re: rat_mul(exp_of(sv(target.real)), cos_of(sv(target.imaginary), sv(cfg.pi),
                cfg.terms as nat, cfg.digits as nat)),
                im: rat_mul(exp_of(sv(target.real)), sin_of(sv(target.imaginary), sv(cfg.pi),
                cfg.terms as nat, cfg.digits as nat)),
            }),
    {
        let er = exp_raw(&target.real);
        let c = Complex::calc_cos(&target.imaginary, cfg);
        let s = Complex::calc_sin(&target.imaginary, cfg);
        Complex { real: er.mul(&c), imaginary: er.mul(&s) }
    }
}

/// The arctangent series loop, shared by both branches of `calc_arctan`.
fn atan_series(x: &Scalar, cfg: &Config) -> (r: Scalar)
    requires
        swf(*x),
        cfg_wf(*cfg),
        x.scale == cfg.digits,
    ensures
        swf(r),
        sv(r) == atan_sum(sv(*x), cfg.terms as nat, cfg.digits as nat),
        r.scale == cfg.digits,
{
    let mut acc = Scalar::zero();
    let mut i: u64 = 1;
    while i <= cfg.terms
        invariant
            cfg_wf(*cfg),
            swf(*x),
            x.scale == cfg.digits,
            1 <= i <= cfg.terms + 1,
            swf(acc),
            sv(acc) == atan_sum(sv(*x), (i - 1) as nat, cfg.digits as nat),
            i >= 2 ==> acc.scale == cfg.digits,
        decreases cfg.terms + 1 - i,
    {
        let n = 2 * i - 1;
        let pw = Complex::fast_pow(x, n);
        let nd = Scalar::from_int(n as i64);
        proof {
            assert(bval(nd.num) == n as int);
        }
        let t = pw.div(&nd, cfg.digits);
        let even = i % 2 == 0;
        acc = if even {
            acc.sub(&t)
        } else {
            acc.add(&t)
        };
        i = i + 1;
        proof {
            let d = cfg.digits as nat;
            let k = (i - 1) as nat;
            assert(atan_sum(sv(*x), k, d) == rat_add(atan_sum(sv(*x), (k - 1) as nat, d), if k
                % 2 == 0 { rat_neg(rat_rdiv(rat_pow(sv(*x), (2 * k - 1) as nat), rat_int(2 * k
                - 1), d)) } else { rat_rdiv(rat_pow(sv(*x), (2 * k - 1) as nat), rat_int(2 * k
                - 1), d) }));
        }
    }
    acc
}

/// The Brahmagupta-Fibonacci identity on integers:
/// `(ac - bd)^2 + (ad + bc)^2 == (a^2 + b^2)(c^2 + d^2)`.
proof fn lemma_norm2_identity(a: int, b: int, c: int, d: int)
    ensures
        (a * c - b * d) * (a * c - b * d) + (a * d + b * c) * (a * d + b * c) == (a * a + b * b)
            * (c * c + d * d),
{
    assert((a * c) * (b * d) == (a * d) * (b * c)) by (nonlinear_arith);
    assert((a * c - b * d) * (a * c - b * d) == (a * c) * (a * c) - 2 * ((a * c) * (b * d)) + (b
        * d) * (b * d)) by (nonlinear_arith);
    assert((a * d + b * c) * (a * d + b * c) == (a * d) * (a * d) + 2 * ((a * d) * (b * c)) + (b
        * c) * (b * c)) by (nonlinear_arith);
    assert((a * c) * (a * c) == (a * a) * (c * c)) by (nonlinear_arith);
    assert((b * d) * (b * d) == (b * b) * (d * d)) by (nonlinear_arith);
    assert((a * d) * (a * d) == (a * a) * (d * d)) by (nonlinear_arith);
    assert((b * c) * (b * c) == (b * b) * (c * c)) by (nonlinear_arith);
    assert((a * a) * (c * c) + (b * b) * (d * d) + (a * a) * (d * d) + (b * b) * (c * c) == (a
        * a + b * b) * (c * c + d * d)) by (nonlinear_arith);
}

/// The exact complex rationals have no zero divisors: a product of non-zero
/// values is non-zero.
pub proof fn lemma_c_mul_nonzero(a: CRat, b: CRat)
    requires
        !c_eq(a, c_zero()),
        !c_eq(b, c_zero()),
    ensures
        !c_eq(c_mul(a, b), c_zero()),
{
    crate::rat::lemma_rat_sign(a.re);
    crate::rat::lemma_rat_sign(a.im);
    crate::rat::lemma_rat_sign(b.re);
    crate::rat::lemma_rat_sign(b.im);
    let p = c_mul(a, b);
    crate::rat::lemma_rat_sign(p.re);
    crate::rat::lemma_rat_sign(p.im);
    let sa = nmax(a.re.e, a.im.e);
    let sb = nmax(b.re.e, b.im.e);
    let aa = rat_at(a.re, sa);
    let bb = rat_at(a.im, sa);
    let cc = rat_at(b.re, sb);
    let dd = rat_at(b.im, sb);
    crate::rat::lemma_rat_mul_at(a.re, b.re, sa, sb);
    crate::rat::lemma_rat_mul_at(a.im, b.im, sa, sb);
    crate::rat::lemma_rat_mul_at(a.re, b.im, sa, sb);
    crate::rat::lemma_rat_mul_at(a.im, b.re, sa, sb);
    crate::rat::lemma_rat_add_at(rat_mul(a.re, b.re), rat_neg(rat_mul(a.im, b.im)), sa + sb);
    crate::rat::lemma_rat_neg_at(rat_mul(a.im, b.im), sa + sb);
    crate::rat::lemma_rat_add_at(rat_mul(a.re, b.im), rat_mul(a.im, b.re), sa + sb);
    assert(rat_at(p.re, sa + sb) == aa * cc - bb * dd);
    assert(rat_at(p.im, sa + sb) == aa * dd + bb * cc);
    // numerators vanish exactly when the rescaled representatives do
    lemma_p10_pos(((sa + sb) - p.re.e) as nat);
    lemma_p10_pos(((sa + sb) - p.im.e) as nat);
    crate::rat::lemma_abs_mul_pos(p.re.n, p10(((sa + sb) - p.re.e) as nat));
    crate::rat::lemma_abs_mul_pos(p.im.n, p10(((sa + sb) - p.im.e) as nat));
    lemma_p10_pos((sa - a.re.e) as nat);
    lemma_p10_pos((sa - a.im.e) as nat);
    lemma_p10_pos((sb - b.re.e) as nat);
    lemma_p10_pos((sb - b.im.e) as nat);
    crate::rat::lemma_abs_mul_pos(a.re.n, p10((sa - a.re.e) as nat));
    crate::rat::lemma_abs_mul_pos(a.im.n, p10((sa - a.im.e) as nat));
    crate::rat::lemma_abs_mul_pos(b.re.n, p10((sb - b.re.e) as nat));
    crate::rat::lemma_abs_mul_pos(b.im.n, p10((sb - b.im.e) as nat));
    if c_eq(p, c_zero()) {
        assert(aa * cc - bb * dd == 0);
        assert(aa * dd + bb * cc == 0);
        lemma_norm2_identity(aa, bb, cc, dd);
        assert((aa * aa + bb * bb) * (cc * cc + dd * dd) == 0) by (nonlinear_arith)
            requires
                aa * cc - bb * dd == 0,
                aa * dd + bb * cc == 0,
                (aa * cc - bb * dd) * (aa * cc - bb * dd) + (aa * dd + bb * cc) * (aa * dd + bb
                    * cc) == (aa * aa + bb * bb) * (cc * cc + dd * dd),
        ;
        assert(aa != 0 || bb != 0);
        assert(aa * aa + bb * bb > 0) by (nonlinear_arith)
            requires
                aa != 0 || bb != 0,
        ;
        assert(cc == 0 && dd == 0) by (nonlinear_arith)
            requires
                (aa * aa + bb * bb) * (cc * cc + dd * dd) == 0,
                aa * aa + bb * bb > 0,
        ;
        assert(false);
    }
}

/// The numerator of `rat_pow` is the integer power of the numerator, and its
/// scale is the multiple of the base's scale.
pub proof fn lemma_rat_pow_parts(a: Rat, k: nat)
    ensures
        rat_pow(a, k).n == pow(a.n, k),
        rat_pow(a, k).e == k * a.e,
    decreases k,
{
    if k == 0 {
        vstd::arithmetic::power::lemma_pow0(a.n);
        assert((0nat * a.e) == 0nat) by (nonlinear_arith);
    } else {
        lemma_rat_pow_parts(a, (k - 1) as nat);
        lemma_pow_adds(a.n, (k - 1) as nat, 1);
        vstd::arithmetic::power::lemma_pow1(a.n);
        assert(pow(a.n, k) == pow(a.n, (k - 1) as nat) * pow(a.n, 1));
        assert(pow(a.n, (k - 1) as nat) * a.n == pow(a.n, (k - 1) as nat) * pow(a.n, 1))
            by (nonlinear_arith)
            requires
                a.n == pow(a.n, 1),
        ;
        assert((k - 1) as nat * a.e + a.e == k * a.e) by (nonlinear_arith)
            requires
                k >= 1,
        ;
    }
}

} // verus!
