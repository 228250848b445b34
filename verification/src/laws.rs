//! Laws of the arithmetic, proved for the models of arbitrary values: the
//! field laws of exact complex addition and multiplication, the half-ulp
//! bounds that dividing and multiplying back obeys (for scalars and for
//! complex values), and the bounded range of angle normalization. Together
//! with the operators' own contracts these carry over to every executable
//! computation.

use vstd::prelude::*;
use crate::rat::{
    Rat, p10, nmax, abs_int, rat_int, rat_add, rat_neg, rat_sub, rat_mul, rat_abs, rat_at,
    rat_le, rat_lt, rat_zero, rat_ulp, rat_pow, rat_one, rat_rdiv, rat_rdiv_n, rat_tquot, rdiv,
    lemma_p10_adds, lemma_p10_zero, lemma_p10_pos, lemma_abs_mul_pos, lemma_rdiv_close,
    lemma_tdiv_close, lemma_rat_sign, lemma_rat_add_at, lemma_rat_neg_at,
};
use crate::complex::{
    Complex, CRat, cv, c_add, c_sub, c_mul, c_pow, c_one, c_zero, c_eq, c_div_rounded,
    c_norm2, norm_angle,
};

verus! {

/// Addition of exact decimal rationals is commutative.
pub proof fn lemma_rat_add_commutes(x: Rat, y: Rat)
    ensures
        rat_add(x, y) == rat_add(y, x),
{
    assert(nmax(x.e, y.e) == nmax(y.e, x.e));
}

/// Addition of exact decimal rationals is associative.
pub proof fn lemma_rat_add_associates(x: Rat, y: Rat, z: Rat)
    ensures
        rat_add(rat_add(x, y), z) == rat_add(x, rat_add(y, z)),
{
    let m = nmax(nmax(x.e, y.e), z.e);
    assert(m == nmax(x.e, nmax(y.e, z.e)));
    lemma_rat_add_at(x, y, m);
    lemma_rat_add_at(y, z, m);
    assert(rat_add(rat_add(x, y), z).n == rat_at(rat_add(x, y), m) + rat_at(z, m));
    assert(rat_add(x, rat_add(y, z)).n == rat_at(x, m) + rat_at(rat_add(y, z), m));
}

/// `a (b + c) == a b + a c` for exact decimal rationals, representation
/// included.
pub proof fn lemma_rat_mul_distributes(a: Rat, b: Rat, c: Rat)
    ensures
        rat_mul(a, rat_add(b, c)) == rat_add(rat_mul(a, b), rat_mul(a, c)),
{
    let m = nmax(b.e, c.e);
    let lhs = rat_mul(a, rat_add(b, c));
    let rhs = rat_add(rat_mul(a, b), rat_mul(a, c));
    assert(lhs.e == a.e + m);
    assert(nmax(a.e + b.e, a.e + c.e) == a.e + m);
    assert(rhs.n == rat_at(rat_mul(a, b), a.e + m) + rat_at(rat_mul(a, c), a.e + m));
    assert(rat_at(rat_mul(a, b), a.e + m) == a.n * rat_at(b, m)) by {
        assert(((a.e + m) - (a.e + b.e)) as nat == (m - b.e) as nat);
        assert((a.n * b.n) * p10((m - b.e) as nat) == a.n * (b.n * p10((m - b.e) as nat)))
            by (nonlinear_arith);
    };
    assert(rat_at(rat_mul(a, c), a.e + m) == a.n * rat_at(c, m)) by {
        assert(((a.e + m) - (a.e + c.e)) as nat == (m - c.e) as nat);
        assert((a.n * c.n) * p10((m - c.e) as nat) == a.n * (c.n * p10((m - c.e) as nat)))
            by (nonlinear_arith);
    };
    assert(lhs.n == a.n * (rat_at(b, m) + rat_at(c, m)));
    assert(a.n * (rat_at(b, m) + rat_at(c, m)) == a.n * rat_at(b, m) + a.n * rat_at(c, m))
        by (nonlinear_arith);
}

/// `(m1 + m2) - (m3 + m4) == (m1 - m3) + (m2 - m4)`.
proof fn lemma_rat_sub_rearranges(m1: Rat, m2: Rat, m3: Rat, m4: Rat)
    ensures
        rat_sub(rat_add(m1, m2), rat_add(m3, m4)) == rat_add(rat_sub(m1, m3), rat_sub(m2, m4)),
{
    let lhs = rat_sub(rat_add(m1, m2), rat_add(m3, m4));
    let rhs = rat_add(rat_sub(m1, m3), rat_sub(m2, m4));
    let e = lhs.e;
    assert(rhs.e == e);
    lemma_rat_add_at(m1, m2, e);
    lemma_rat_neg_at(rat_add(m3, m4), e);
    lemma_rat_add_at(m3, m4, e);
    assert(lhs.n == rat_at(rat_add(m1, m2), e) + rat_at(rat_neg(rat_add(m3, m4)), e));
    lemma_rat_add_at(m1, rat_neg(m3), e);
    lemma_rat_add_at(m2, rat_neg(m4), e);
    lemma_rat_neg_at(m3, e);
    lemma_rat_neg_at(m4, e);
    assert(rhs.n == rat_at(rat_sub(m1, m3), e) + rat_at(rat_sub(m2, m4), e));
}

/// `(m1 + m2) + (m3 + m4) == (m1 + m3) + (m2 + m4)`.
proof fn lemma_rat_add_rearranges(m1: Rat, m2: Rat, m3: Rat, m4: Rat)
    ensures
        rat_add(rat_add(m1, m2), rat_add(m3, m4)) == rat_add(rat_add(m1, m3), rat_add(m2, m4)),
{
    let lhs = rat_add(rat_add(m1, m2), rat_add(m3, m4));
    let rhs = rat_add(rat_add(m1, m3), rat_add(m2, m4));
    let e = lhs.e;
    assert(rhs.e == e);
    lemma_rat_add_at(m1, m2, e);
    lemma_rat_add_at(m3, m4, e);
    lemma_rat_add_at(m1, m3, e);
    lemma_rat_add_at(m2, m4, e);
    assert(lhs.n == rat_at(rat_add(m1, m2), e) + rat_at(rat_add(m3, m4), e));
    assert(rhs.n == rat_at(rat_add(m1, m3), e) + rat_at(rat_add(m2, m4), e));
}

/// Complex addition is commutative: `a + b == b + a`, representation included.
pub proof fn lemma_complex_add_commutes(a: Complex, b: Complex)
    ensures
        c_add(cv(a), cv(b)) == c_add(cv(b), cv(a)),
{
    lemma_rat_add_commutes(cv(a).re, cv(b).re);
    lemma_rat_add_commutes(cv(a).im, cv(b).im);
}

/// Complex addition is associative: `(a + b) + c == a + (b + c)`.
pub proof fn lemma_complex_add_associates(a: Complex, b: Complex, c: Complex)
    ensures
        c_add(c_add(cv(a), cv(b)), cv(c)) == c_add(cv(a), c_add(cv(b), cv(c))),
{
    lemma_rat_add_associates(cv(a).re, cv(b).re, cv(c).re);
    lemma_rat_add_associates(cv(a).im, cv(b).im, cv(c).im);
}

/// Complex multiplication distributes over addition:
/// `a * (b + c) == a * b + a * c`.
pub proof fn lemma_complex_mul_distributes(a: Complex, b: Complex, c: Complex)
    ensures
        c_mul(cv(a), c_add(cv(b), cv(c))) == c_add(c_mul(cv(a), cv(b)), c_mul(cv(a), cv(c))),
{
    let x = cv(a);
    let y = cv(b);
    let z = cv(c);
    lemma_rat_mul_distributes(x.re, y.re, z.re);
    lemma_rat_mul_distributes(x.im, y.im, z.im);
    lemma_rat_mul_distributes(x.re, y.im, z.im);
    lemma_rat_mul_distributes(x.im, y.re, z.re);
    lemma_rat_sub_rearranges(rat_mul(x.re, y.re), rat_mul(x.re, z.re), rat_mul(x.im, y.im),
        rat_mul(x.im, z.im));
    lemma_rat_add_rearranges(rat_mul(x.re, y.im), rat_mul(x.re, z.im), rat_mul(x.im, y.re),
        rat_mul(x.im, z.re));
}

/// Dividing and multiplying back loses at most half a unit in the last rounded
/// place, relative to the divisor: for `b != 0`,
/// `|(a / b) * b - a| <= 10^-d * |b| / 2`, where `a / b` is the scalar
/// quotient rounded at `d` digits.
pub proof fn lemma_div_inverse_scalar(a: Rat, b: Rat, d: nat)
    requires
        b.n != 0,
    ensures
        rat_le(rat_mul(rat_int(2), rat_abs(rat_sub(rat_mul(rat_rdiv(a, b, d), b), a))), rat_mul(
        rat_ulp(d), rat_abs(b))),
{
    let nn = a.n * p10(d + b.e);
    let dd = b.n * p10(a.e);
    lemma_p10_pos(a.e);
    lemma_abs_mul_pos(b.n, p10(a.e));
    lemma_rdiv_close(nn, dd);
    let q = rat_rdiv_n(a, b, d);
    let prod = rat_mul(rat_rdiv(a, b, d), b);
    let m0 = nmax(d + b.e, a.e);
    let k1 = (m0 - (d + b.e)) as nat;
    let k2 = (m0 - a.e) as nat;
    let g = q * b.n * p10(k1) + (-a.n) * p10(k2);
    assert(rat_sub(prod, a).n == g);
    assert(rat_sub(prod, a).e == m0);
    let lhs = rat_mul(rat_int(2), rat_abs(rat_sub(prod, a)));
    let rhs = rat_mul(rat_ulp(d), rat_abs(b));
    assert(lhs.n == 2 * abs_int(g) && lhs.e == m0);
    assert(rhs.n == 1 * abs_int(b.n) && rhs.e == d + b.e);
    // both sides of the claim, rescaled to the common scale m0
    assert(nmax(lhs.e, rhs.e) == m0);
    lemma_p10_zero();
    assert(rat_at(lhs, m0) == (2 * abs_int(g)) * p10(0));
    assert(rat_at(rhs, m0) == (1 * abs_int(b.n)) * p10(k1));
    // g * p10(a.e) equals (q * dd - nn) * p10(k1)
    lemma_p10_adds(k2, a.e);
    lemma_p10_adds(d + b.e, k1);
    assert(k2 + a.e == (d + b.e) + k1);
    let pp = p10(a.e);
    let qq = p10(k1);
    let rr = p10(k2);
    let ss = p10(d + b.e);
    assert(rr * pp == ss * qq);
    lemma_div_inverse_ring(g, q, b.n, a.n, dd, nn, pp, qq, rr, ss);
    // transport the closeness bound through the positive factor p10(a.e)
    lemma_p10_pos(k1);
    lemma_div_inverse_bound(g, q * dd - nn, dd, abs_int(b.n), pp, qq);
    assert((2 * abs_int(g)) * p10(0) == 2 * abs_int(g)) by (nonlinear_arith)
        requires
            p10(0) == 1,
    ;
    assert((1 * abs_int(b.n)) * qq == abs_int(b.n) * qq) by (nonlinear_arith);
}

proof fn lemma_div_inverse_ring(g: int, q: int, bn: int, an: int, dd: int, nn: int, pp: int,
    qq: int, rr: int, ss: int)
    requires
        g == q * bn * qq + (-an) * rr,
        dd == bn * pp,
        nn == an * ss,
        rr * pp == ss * qq,
    ensures
        g * pp == (q * dd - nn) * qq,
{
    assert(g * pp == (q * bn * qq) * pp + (-an) * (rr * pp)) by (nonlinear_arith)
        requires
            g == q * bn * qq + (-an) * rr,
    ;
    assert((q * bn * qq) * pp == (q * (bn * pp)) * qq) by (nonlinear_arith);
    assert((-an) * (ss * qq) == -((an * ss) * qq)) by (nonlinear_arith);
    assert((q * (bn * pp)) * qq - (an * ss) * qq == ((q * (bn * pp)) - an * ss) * qq)
        by (nonlinear_arith);
    assert(q * (bn * pp) == q * dd);
    assert((q * dd - nn) * qq == ((q * (bn * pp)) - an * ss) * qq);
}

proof fn lemma_div_inverse_bound(g: int, w: int, dd: int, bna: int, pp: int, qq: int) by (nonlinear_arith)
    requires
        g * pp == w * qq,
        2 * abs_int(w) <= abs_int(dd),
        abs_int(dd) == bna * pp,
        pp > 0,
        qq > 0,
    ensures
        2 * abs_int(g) <= bna * qq,
{
}

/// Angle normalization lands in the bounded range: for a positive constant
/// `pi`, the normalized angle is strictly smaller than `2 pi` in magnitude.
pub proof fn lemma_normalize_angle_bounds(a: Rat, pi: Rat)
    requires
        rat_lt(rat_zero(), pi),
    ensures
        rat_lt(rat_abs(norm_angle(a, pi)), rat_mul(rat_int(2), pi)),
{
    lemma_rat_sign(pi);
    let t = rat_mul(rat_int(2), pi);
    let nn = a.n * p10(t.e);
    let dd = t.n * p10(a.e);
    lemma_p10_pos(a.e);
    lemma_abs_mul_pos(t.n, p10(a.e));
    lemma_tdiv_close(nn, dd);
    let k = rat_tquot(a, t);
    let m0 = nmax(a.e, t.e);
    let k1 = (m0 - t.e) as nat;
    let k2 = (m0 - a.e) as nat;
    let g = a.n * p10(k2) + (-(k * t.n)) * p10(k1);
    assert(norm_angle(a, pi).n == g);
    assert(norm_angle(a, pi).e == m0);
    lemma_p10_adds(k2, a.e);
    lemma_p10_adds(t.e, k1);
    assert(k2 + a.e == t.e + k1);
    let pp = p10(a.e);
    let qq = p10(k1);
    let rr = p10(k2);
    let ss = p10(t.e);
    assert(rr * pp == ss * qq);
    lemma_p10_pos(k1);
    assert((-(k * t.n)) * qq == (-k) * t.n * qq) by (nonlinear_arith);
    assert((-a.n) * ss == -(a.n * ss)) by (nonlinear_arith);
    lemma_div_inverse_ring(g, -k, t.n, -a.n, dd, -nn, pp, qq, rr, ss);
    assert(g * pp == ((-k) * dd + nn) * qq);
    assert((-k) * dd + nn == -(k * dd - nn)) by (nonlinear_arith);
    lemma_norm_bound(g, k * dd - nn, dd, t.n, pp, qq);
    // read the claim at the common scale
    lemma_p10_zero();
    let lhs = rat_abs(norm_angle(a, pi));
    assert(nmax(lhs.e, t.e) == m0);
    assert(rat_at(lhs, m0) == abs_int(g) * p10(0));
    assert(rat_at(t, m0) == t.n * qq);
    assert(abs_int(g) * p10(0) == abs_int(g)) by (nonlinear_arith)
        requires
            p10(0) == 1,
    ;
}

proof fn lemma_norm_bound(g: int, w: int, dd: int, tn: int, pp: int, qq: int)
    requires
        g * pp == (-w) * qq,
        abs_int(w) < dd,
        dd == tn * pp,
        pp > 0,
        qq > 0,
    ensures
        abs_int(g) < tn * qq,
{
    assert(abs_int(g) * pp == abs_int(w) * qq) by (nonlinear_arith)
        requires
            g * pp == (-w) * qq,
            pp > 0,
            qq > 0,
    ;
    assert(abs_int(w) * qq < dd * qq) by (nonlinear_arith)
        requires
            abs_int(w) < dd,
            qq > 0,
    ;
    assert(dd * qq == (tn * qq) * pp) by (nonlinear_arith)
        requires
            dd == tn * pp,
    ;
    assert(abs_int(g) < tn * qq) by (nonlinear_arith)
        requires
            abs_int(g) * pp < (tn * qq) * pp,
            pp > 0,
    ;
}

/// `e1 * C - e2 * D` rewrites, through the two rounding errors and the
/// identity `n1 C - n2 D == A (C^2 + D^2)`, to the real component error scaled
/// by the denominator.
proof fn lemma_cdiv_ring_re(g: int, q1: int, q2: int, e1: int, e2: int, n1: int, n2: int,
    den: int, aa: int, bb: int, cc: int, dd: int, sap: int, sbp: int, s: int, p: int,
    pdsb: int)
    requires
        g == q1 * sap * cc - q2 * sap * dd - aa * pdsb,
        e1 == q1 * (den * s) - n1 * p,
        e2 == q2 * (den * s) - n2 * p,
        n1 == aa * cc + bb * dd,
        n2 == bb * cc - aa * dd,
        den == cc * cc + dd * dd,
        s == sap * sbp,
        p == pdsb * sbp,
    ensures
        g * (den * sbp) == e1 * cc - e2 * dd,
{
    assert(e1 * cc - e2 * dd == (q1 * (den * s)) * cc - (q2 * (den * s)) * dd - (n1 * cc - n2
        * dd) * p) by (nonlinear_arith)
        requires
            e1 == q1 * (den * s) - n1 * p,
            e2 == q2 * (den * s) - n2 * p,
    ;
    assert(n1 * cc - n2 * dd == aa * den) by (nonlinear_arith)
        requires
            n1 == aa * cc + bb * dd,
            n2 == bb * cc - aa * dd,
            den == cc * cc + dd * dd,
    ;
    assert((q1 * (den * s)) * cc == (den * sbp) * ((q1 * sap) * cc)) by (nonlinear_arith)
        requires
            s == sap * sbp,
    ;
    assert((q2 * (den * s)) * dd == (den * sbp) * ((q2 * sap) * dd)) by (nonlinear_arith)
        requires
            s == sap * sbp,
    ;
    assert((aa * den) * p == (den * sbp) * (aa * pdsb)) by (nonlinear_arith)
        requires
            p == pdsb * sbp,
    ;
    assert((den * sbp) * ((q1 * sap) * cc) - (den * sbp) * ((q2 * sap) * dd) - (den * sbp) * (
    aa * pdsb) == (den * sbp) * ((q1 * sap) * cc - (q2 * sap) * dd - aa * pdsb))
        by (nonlinear_arith);
    assert(g * (den * sbp) == (den * sbp) * ((q1 * sap) * cc - (q2 * sap) * dd - aa * pdsb))
        by (nonlinear_arith)
        requires
            g == q1 * sap * cc - q2 * sap * dd - aa * pdsb,
    ;
}

/// The same rewriting for the imaginary component, through
/// `n1 D + n2 C == B (C^2 + D^2)`.
proof fn lemma_cdiv_ring_im(g: int, q1: int, q2: int, e1: int, e2: int, n1: int, n2: int,
    den: int, aa: int, bb: int, cc: int, dd: int, sap: int, sbp: int, s: int, p: int,
    pdsb: int)
    requires
        g == q1 * sap * dd + q2 * sap * cc - bb * pdsb,
        e1 == q1 * (den * s) - n1 * p,
        e2 == q2 * (den * s) - n2 * p,
        n1 == aa * cc + bb * dd,
        n2 == bb * cc - aa * dd,
        den == cc * cc + dd * dd,
        s == sap * sbp,
        p == pdsb * sbp,
    ensures
        g * (den * sbp) == e1 * dd + e2 * cc,
{
    assert(e1 * dd + e2 * cc == (q1 * (den * s)) * dd + (q2 * (den * s)) * cc - (n1 * dd + n2
        * cc) * p) by (nonlinear_arith)
        requires
            e1 == q1 * (den * s) - n1 * p,
            e2 == q2 * (den * s) - n2 * p,
    ;
    assert(n1 * dd + n2 * cc == bb * den) by (nonlinear_arith)
        requires
            n1 == aa * cc + bb * dd,
            n2 == bb * cc - aa * dd,
            den == cc * cc + dd * dd,
    ;
    assert((q1 * (den * s)) * dd == (den * sbp) * ((q1 * sap) * dd)) by (nonlinear_arith)
        requires
            s == sap * sbp,
    ;
    assert((q2 * (den * s)) * cc == (den * sbp) * ((q2 * sap) * cc)) by (nonlinear_arith)
        requires
            s == sap * sbp,
    ;
    assert((bb * den) * p == (den * sbp) * (bb * pdsb)) by (nonlinear_arith)
        requires
            p == pdsb * sbp,
    ;
    assert((den * sbp) * ((q1 * sap) * dd) + (den * sbp) * ((q2 * sap) * cc) - (den * sbp) * (
    bb * pdsb) == (den * sbp) * ((q1 * sap) * dd + (q2 * sap) * cc - bb * pdsb))
        by (nonlinear_arith);
    assert(g * (den * sbp) == (den * sbp) * ((q1 * sap) * dd + (q2 * sap) * cc - bb * pdsb))
        by (nonlinear_arith)
        requires
            g == q1 * sap * dd + q2 * sap * cc - bb * pdsb,
    ;
}

/// Two half-denominator errors combine, across a weighted difference or sum,
/// into the claimed bound, and the positive common factor cancels.
proof fn lemma_cdiv_bound(g: int, w: int, den: int, cc: int, dd: int, sap: int, sbp: int,
    s: int)
    requires
        g * (den * sbp) == w,
        2 * abs_int(w) <= (den * s) * (abs_int(cc) + abs_int(dd)),
        s == sap * sbp,
        den > 0,
        sbp > 0,
        sap > 0,
    ensures
        2 * abs_int(g) <= sap * (abs_int(cc) + abs_int(dd)),
{
    assert(2 * abs_int(g) * (den * sbp) == 2 * abs_int(w)) by (nonlinear_arith)
        requires
            g * (den * sbp) == w,
            den > 0,
            sbp > 0,
    ;
    assert((den * s) * (abs_int(cc) + abs_int(dd)) == (sap * (abs_int(cc) + abs_int(dd))) * (
    den * sbp)) by (nonlinear_arith)
        requires
            s == sap * sbp,
    ;
    assert(den * sbp > 0) by (nonlinear_arith)
        requires
            den > 0,
            sbp > 0,
    ;
    assert(2 * abs_int(g) <= sap * (abs_int(cc) + abs_int(dd))) by (nonlinear_arith)
        requires
            2 * abs_int(g) * (den * sbp) <= (sap * (abs_int(cc) + abs_int(dd))) * (den * sbp),
            den * sbp > 0,
    ;
}

proof fn lemma_cdiv_triangle(e1: int, e2: int, cc: int, dd: int, dens: int)
    requires
        2 * abs_int(e1) <= dens,
        2 * abs_int(e2) <= dens,
    ensures
        2 * abs_int(e1 * cc - e2 * dd) <= dens * (abs_int(cc) + abs_int(dd)),
        2 * abs_int(e1 * dd + e2 * cc) <= dens * (abs_int(cc) + abs_int(dd)),
{
    assert(2 * abs_int(e1 * cc - e2 * dd) <= dens * (abs_int(cc) + abs_int(dd)) && 2 * abs_int(
    e1 * dd + e2 * cc) <= dens * (abs_int(cc) + abs_int(dd))) by (nonlinear_arith)
        requires
            2 * abs_int(e1) <= dens,
            2 * abs_int(e2) <= dens,
    ;
}

/// Transport a numerator bound down from a finer scale, cancelling the
/// positive power that separates the two scales.
proof fn lemma_cdiv_rescale(gm: int, g: int, cdsum: int, pa: int, pb: int)
    requires
        gm * pb == g,
        2 * abs_int(g) <= (pa * pb) * cdsum,
        pb > 0,
    ensures
        2 * abs_int(gm) <= pa * cdsum,
{
    assert(2 * abs_int(gm) * pb == 2 * abs_int(g)) by (nonlinear_arith)
        requires
            gm * pb == g,
            pb > 0,
    ;
    assert((pa * pb) * cdsum == (pa * cdsum) * pb) by (nonlinear_arith);
    assert(2 * abs_int(gm) <= pa * cdsum) by (nonlinear_arith)
        requires
            2 * abs_int(gm) * pb <= (pa * cdsum) * pb,
            pb > 0,
    ;
}

/// Dividing and multiplying back loses, in each component, at most half a
/// unit in the last rounded place scaled by `|b.re| + |b.im|`: for `b != 0`
/// and `q = a / b` rounded at `d` digits,
/// `|(q b - a).re| <= 10^-d (|b.re| + |b.im|) / 2`, and the same for `.im`.
#[verifier::spinoff_prover]
#[verifier::rlimit(100)]
pub proof fn lemma_div_inverse_complex(a: CRat, b: CRat, d: nat)
    requires
        !c_eq(b, c_zero()),
    ensures
        ({
            let e = c_sub(c_mul(c_div_rounded(a, b, d), b), a);
            let bound = rat_mul(rat_ulp(d), rat_add(rat_abs(b.re), rat_abs(b.im)));
            rat_le(rat_mul(rat_int(2), rat_abs(e.re)), bound) && rat_le(rat_mul(rat_int(2),
            rat_abs(e.im)), bound)
        }),
{
    let sa = nmax(a.re.e, a.im.e);
    let sb = nmax(b.re.e, b.im.e);
    let aa = rat_at(a.re, sa);
    let bb = rat_at(a.im, sa);
    let cc = rat_at(b.re, sb);
    let dd = rat_at(b.im, sb);
    let nre = rat_add(rat_mul(a.re, b.re), rat_mul(a.im, b.im));
    let nim = rat_sub(rat_mul(a.im, b.re), rat_mul(a.re, b.im));
    let den = c_norm2(b);
    // the numerators, the denominator and the quotients at matched scales
    crate::rat::lemma_rat_mul_at(a.re, b.re, sa, sb);
    crate::rat::lemma_rat_mul_at(a.im, b.im, sa, sb);
    crate::rat::lemma_rat_mul_at(a.im, b.re, sa, sb);
    crate::rat::lemma_rat_mul_at(a.re, b.im, sa, sb);
    lemma_rat_add_at(rat_mul(a.re, b.re), rat_mul(a.im, b.im), sa + sb);
    lemma_rat_add_at(rat_mul(a.im, b.re), rat_neg(rat_mul(a.re, b.im)), sa + sb);
    lemma_rat_neg_at(rat_mul(a.re, b.im), sa + sb);
    crate::rat::lemma_rat_mul_at(b.re, b.re, sb, sb);
    crate::rat::lemma_rat_mul_at(b.im, b.im, sb, sb);
    lemma_rat_add_at(rat_mul(b.re, b.re), rat_mul(b.im, b.im), sb + sb);
    let n1 = aa * cc + bb * dd;
    let n2 = bb * cc - aa * dd;
    let den_i = cc * cc + dd * dd;
    assert(rat_at(nre, sa + sb) == n1);
    assert(rat_at(nim, sa + sb) == n2);
    assert(rat_at(den, sb + sb) == den_i);
    // the denominator is positive, since b is non-zero
    lemma_rat_sign(b.re);
    lemma_rat_sign(b.im);
    lemma_p10_pos((sb - b.re.e) as nat);
    lemma_p10_pos((sb - b.im.e) as nat);
    lemma_abs_mul_pos(b.re.n, p10((sb - b.re.e) as nat));
    lemma_abs_mul_pos(b.im.n, p10((sb - b.im.e) as nat));
    assert(cc != 0 || dd != 0);
    assert(cc * cc + dd * dd > 0) by (nonlinear_arith)
        requires
            cc != 0 || dd != 0,
    ;
    assert(den_i > 0);
    lemma_p10_pos(((sb + sb) - den.e) as nat);
    lemma_abs_mul_pos(den.n, p10(((sb + sb) - den.e) as nat));
    assert(den.n != 0);
    lemma_p10_pos(nre.e);
    lemma_p10_pos(nim.e);
    lemma_abs_mul_pos(den.n, p10(nre.e));
    lemma_abs_mul_pos(den.n, p10(nim.e));
    // normalize the rounded quotients to the representative scales
    let q1 = rat_rdiv_n(nre, den, d);
    let q2 = rat_rdiv_n(nim, den, d);
    let sap = p10(sa);
    let sbp = p10(sb);
    let ss = p10(sa + sb);
    let pp = p10(d + 2 * sb);
    let pdsb = p10(d + sb);
    lemma_p10_pos(sa);
    lemma_p10_pos(sb);
    lemma_p10_pos(sa + sb);
    lemma_p10_pos(d + 2 * sb);
    lemma_p10_pos(d + sb);
    lemma_p10_adds(sa, sb);
    lemma_p10_adds(d + sb, sb);
    assert(ss == sap * sbp);
    assert(pp == pdsb * sbp);
    let k2 = p10((2 * sb - den.e) as nat);
    lemma_p10_pos((2 * sb - den.e) as nat);
    lemma_p10_adds(d + den.e, (2 * sb - den.e) as nat);
    lemma_p10_adds(den.e, (2 * sb - den.e) as nat);
    assert(rat_at(den, sb + sb) == den.n * k2);
    let kre = p10((sa + sb - nre.e) as nat);
    lemma_p10_pos((sa + sb - nre.e) as nat);
    lemma_p10_adds(nre.e, (sa + sb - nre.e) as nat);
    assert(rat_at(nre, sa + sb) == nre.n * kre);
    assert(kre * k2 > 0) by (nonlinear_arith)
        requires
            kre > 0,
            k2 > 0,
    ;
    crate::rat::lemma_rdiv_scale(nre.n * p10(d + den.e), den.n * p10(nre.e), kre * k2);
    assert((nre.n * p10(d + den.e)) * (kre * k2) == n1 * pp) by (nonlinear_arith)
        requires
            n1 == nre.n * kre,
            p10(d + den.e) * k2 == pp,
    ;
    assert((den.n * p10(nre.e)) * (kre * k2) == den_i * ss) by (nonlinear_arith)
        requires
            den_i == den.n * k2,
            p10(nre.e) * kre == ss,
    ;
    assert(q1 == rdiv(n1 * pp, den_i * ss));
    let kim = p10((sa + sb - nim.e) as nat);
    lemma_p10_pos((sa + sb - nim.e) as nat);
    lemma_p10_adds(nim.e, (sa + sb - nim.e) as nat);
    assert(rat_at(nim, sa + sb) == nim.n * kim);
    assert(kim * k2 > 0) by (nonlinear_arith)
        requires
            kim > 0,
            k2 > 0,
    ;
    crate::rat::lemma_rdiv_scale(nim.n * p10(d + den.e), den.n * p10(nim.e), kim * k2);
    assert((nim.n * p10(d + den.e)) * (kim * k2) == n2 * pp) by (nonlinear_arith)
        requires
            n2 == nim.n * kim,
            p10(d + den.e) * k2 == pp,
    ;
    assert((den.n * p10(nim.e)) * (kim * k2) == den_i * ss) by (nonlinear_arith)
        requires
            den_i == den.n * k2,
            p10(nim.e) * kim == ss,
    ;
    assert(q2 == rdiv(n2 * pp, den_i * ss));
    // the two rounding errors are at most half the scaled denominator
    assert(den_i * ss > 0) by (nonlinear_arith)
        requires
            den_i > 0,
            ss > 0,
    ;
    lemma_rdiv_close(n1 * pp, den_i * ss);
    lemma_rdiv_close(n2 * pp, den_i * ss);
    let e1 = q1 * (den_i * ss) - n1 * pp;
    let e2 = q2 * (den_i * ss) - n2 * pp;
    assert(2 * abs_int(e1) <= den_i * ss);
    assert(2 * abs_int(e2) <= den_i * ss);
    // the error components at the master scale
    let q = c_div_rounded(a, b, d);
    let e = c_sub(c_mul(q, b), a);
    let mm = (d + sa) + sb;
    assert(q.re.n == q1 && q.re.e == d);
    assert(q.im.n == q2 && q.im.e == d);
    crate::rat::lemma_rat_mul_at(q.re, b.re, d + sa, sb);
    crate::rat::lemma_rat_mul_at(q.im, b.im, d + sa, sb);
    crate::rat::lemma_rat_mul_at(q.re, b.im, d + sa, sb);
    crate::rat::lemma_rat_mul_at(q.im, b.re, d + sa, sb);
    assert(rat_at(q.re, d + sa) == q1 * sap);
    assert(rat_at(q.im, d + sa) == q2 * sap);
    let x = c_mul(q, b);
    lemma_rat_add_at(rat_mul(q.re, b.re), rat_neg(rat_mul(q.im, b.im)), mm);
    lemma_rat_neg_at(rat_mul(q.im, b.im), mm);
    lemma_rat_add_at(rat_mul(q.re, b.im), rat_mul(q.im, b.re), mm);
    lemma_rat_add_at(x.re, rat_neg(a.re), mm);
    lemma_rat_add_at(x.im, rat_neg(a.im), mm);
    lemma_rat_neg_at(a.re, mm);
    lemma_rat_neg_at(a.im, mm);
    crate::rat::lemma_rat_at_lift(a.re, sa, mm);
    crate::rat::lemma_rat_at_lift(a.im, sa, mm);
    assert(rat_at(a.re, mm) == aa * pdsb);
    assert(rat_at(a.im, mm) == bb * pdsb);
    let g1 = rat_at(e.re, mm);
    let g2 = rat_at(e.im, mm);
    assert(g1 == (q1 * sap) * cc - (q2 * sap) * dd - aa * pdsb);
    assert(g2 == (q1 * sap) * dd + (q2 * sap) * cc - bb * pdsb);
    assert((q1 * sap) * cc == q1 * sap * cc && (q2 * sap) * dd == q2 * sap * dd && (q1 * sap)
        * dd == q1 * sap * dd && (q2 * sap) * cc == q2 * sap * cc) by (nonlinear_arith);
    lemma_cdiv_ring_re(g1, q1, q2, e1, e2, n1, n2, den_i, aa, bb, cc, dd, sap, sbp, ss, pp,
        pdsb);
    lemma_cdiv_ring_im(g2, q1, q2, e1, e2, n1, n2, den_i, aa, bb, cc, dd, sap, sbp, ss, pp,
        pdsb);
    lemma_cdiv_triangle(e1, e2, cc, dd, den_i * ss);
    lemma_cdiv_bound(g1, e1 * cc - e2 * dd, den_i, cc, dd, sap, sbp, ss);
    lemma_cdiv_bound(g2, e1 * dd + e2 * cc, den_i, cc, dd, sap, sbp, ss);
    // read the two claims at their common comparison scales
    let bound = rat_mul(rat_ulp(d), rat_add(rat_abs(b.re), rat_abs(b.im)));
    assert(bound.n == abs_int(cc) + abs_int(dd)) by {
        assert(1 * (abs_int(b.re.n) * p10((sb - b.re.e) as nat) + abs_int(b.im.n) * p10((sb
            - b.im.e) as nat)) == abs_int(cc) + abs_int(dd)) by (nonlinear_arith)
            requires
                abs_int(cc) == abs_int(b.re.n) * p10((sb - b.re.e) as nat),
                abs_int(dd) == abs_int(b.im.n) * p10((sb - b.im.e) as nat),
        ;
    };
    assert(bound.e == d + sb);
    let mre = nmax(e.re.e, d + sb);
    let mim = nmax(e.im.e, d + sb);
    assert(e.re.e <= mm && e.im.e <= mm && mre <= mm && mim <= mm);
    crate::rat::lemma_rat_at_lift(e.re, mre, mm);
    crate::rat::lemma_rat_at_lift(e.im, mim, mm);
    lemma_p10_pos((mm - mre) as nat);
    lemma_p10_pos((mm - mim) as nat);
    lemma_p10_adds((mre - (d + sb)) as nat, (mm - mre) as nat);
    lemma_p10_adds((mim - (d + sb)) as nat, (mm - mim) as nat);
    assert(sap == p10((mre - (d + sb)) as nat) * p10((mm - mre) as nat));
    assert(sap == p10((mim - (d + sb)) as nat) * p10((mm - mim) as nat));
    lemma_cdiv_rescale(rat_at(e.re, mre), g1, abs_int(cc) + abs_int(dd), p10((mre - (d + sb))
        as nat), p10((mm - mre) as nat));
    lemma_cdiv_rescale(rat_at(e.im, mim), g2, abs_int(cc) + abs_int(dd), p10((mim - (d + sb))
        as nat), p10((mm - mim) as nat));
    // the left sides of the claims are twice the absolute error numerators
    lemma_p10_pos((mre - e.re.e) as nat);
    lemma_p10_pos((mim - e.im.e) as nat);
    lemma_abs_mul_pos(e.re.n, p10((mre - e.re.e) as nat));
    lemma_abs_mul_pos(e.im.n, p10((mim - e.im.e) as nat));
    assert(rat_at(rat_mul(rat_int(2), rat_abs(e.re)), mre) == 2 * abs_int(e.re.n) * p10((mre
        - e.re.e) as nat)) by (nonlinear_arith)
        requires
            rat_at(rat_mul(rat_int(2), rat_abs(e.re)), mre) == (2 * abs_int(e.re.n)) * p10((
            mre - e.re.e) as nat),
    ;
    assert(2 * abs_int(e.re.n) * p10((mre - e.re.e) as nat) == 2 * abs_int(rat_at(e.re, mre)))
        by (nonlinear_arith)
        requires
            abs_int(rat_at(e.re, mre)) == abs_int(e.re.n) * p10((mre - e.re.e) as nat),
    ;
    assert(rat_at(rat_mul(rat_int(2), rat_abs(e.im)), mim) == 2 * abs_int(e.im.n) * p10((mim
        - e.im.e) as nat)) by (nonlinear_arith)
        requires
            rat_at(rat_mul(rat_int(2), rat_abs(e.im)), mim) == (2 * abs_int(e.im.n)) * p10((
            mim - e.im.e) as nat),
    ;
    assert(2 * abs_int(e.im.n) * p10((mim - e.im.e) as nat) == 2 * abs_int(rat_at(e.im, mim)))
        by (nonlinear_arith)
        requires
            abs_int(rat_at(e.im, mim)) == abs_int(e.im.n) * p10((mim - e.im.e) as nat),
    ;
    assert(rat_at(bound, mre) == bound.n * p10((mre - (d + sb)) as nat));
    assert(rat_at(bound, mim) == bound.n * p10((mim - (d + sb)) as nat));
    assert(bound.n * p10((mre - (d + sb)) as nat) == p10((mre - (d + sb)) as nat) * (abs_int(
    cc) + abs_int(dd))) by (nonlinear_arith)
        requires
            bound.n == abs_int(cc) + abs_int(dd),
    ;
    assert(bound.n * p10((mim - (d + sb)) as nat) == p10((mim - (d + sb)) as nat) * (abs_int(
    cc) + abs_int(dd))) by (nonlinear_arith)
        requires
            bound.n == abs_int(cc) + abs_int(dd),
    ;
}

/// A power is one more multiplication by the base: together with
/// `rat_pow(x, 0) == 1` this pins `fast_pow`'s result down as the base
/// multiplied by itself `n` times.
pub proof fn lemma_rat_pow_unfolds(x: Rat, k: nat)
    ensures
        rat_pow(x, 0) == rat_one(),
        rat_pow(x, k + 1) == rat_mul(rat_pow(x, k), x),
{
}

/// The same, for the direct complex power used by the solver's evaluation.
pub proof fn lemma_c_pow_unfolds(x: CRat, k: nat)
    ensures
        c_pow(x, 0) == c_one(),
        c_pow(x, k + 1) == c_mul(c_pow(x, k), x),
{
}

} // verus!
