//! The mathematical model of the library's numbers: exact rationals of the
//! form `n / 10^e`, written as a ghost pair of a signed numerator `n` and a
//! decimal exponent `e`. Every executable scalar operation is specified by an
//! operation on this model.

use vstd::prelude::*;
use vstd::arithmetic::power::{pow, lemma_pow_adds, lemma_pow_positive, lemma_pow0, lemma_pow1};
use vstd::arithmetic::div_mod::lemma_fundamental_div_mod_converse;

verus! {

/// A decimal rational: the value `n / 10^e`.
pub ghost struct Rat {
    pub n: int,
    pub e: nat,
}

/// `10^e`.
pub open spec fn p10(e: nat) -> int {
    pow(10, e)
}

pub open spec fn abs_int(i: int) -> int {
    if i < 0 { -i } else { i }
}

pub open spec fn nmax(a: nat, b: nat) -> nat {
    if a >= b { a } else { b }
}

pub open spec fn rat_int(i: int) -> Rat {
    Rat { n: i, e: 0 }
}

pub open spec fn rat_zero() -> Rat {
    rat_int(0)
}

pub open spec fn rat_one() -> Rat {
    rat_int(1)
}

/// One unit in the last place at `e` fractional digits: `10^-e`.
pub open spec fn rat_ulp(e: nat) -> Rat {
    Rat { n: 1, e }
}

/// Exact sum, written at the finer of the two scales.
pub open spec fn rat_add(a: Rat, b: Rat) -> Rat {
    let m = nmax(a.e, b.e);
    Rat { n: rat_at(a, m) + rat_at(b, m), e: m }
}

pub open spec fn rat_neg(a: Rat) -> Rat {
    Rat { n: -a.n, e: a.e }
}

pub open spec fn rat_sub(a: Rat, b: Rat) -> Rat {
    rat_add(a, rat_neg(b))
}

/// Exact product.
pub open spec fn rat_mul(a: Rat, b: Rat) -> Rat {
    Rat { n: a.n * b.n, e: a.e + b.e }
}

pub open spec fn rat_abs(a: Rat) -> Rat {
    Rat { n: abs_int(a.n), e: a.e }
}

/// The numerator of `a` rescaled to scale `m` (meaningful for `m >= a.e`).
pub open spec fn rat_at(a: Rat, m: nat) -> int {
    a.n * p10((m - a.e) as nat)
}

/// `a` and `b` denote the same rational value (compared at the common scale).
pub open spec fn rat_eq(a: Rat, b: Rat) -> bool {
    rat_at(a, nmax(a.e, b.e)) == rat_at(b, nmax(a.e, b.e))
}

pub open spec fn rat_le(a: Rat, b: Rat) -> bool {
    rat_at(a, nmax(a.e, b.e)) <= rat_at(b, nmax(a.e, b.e))
}

pub open spec fn rat_lt(a: Rat, b: Rat) -> bool {
    rat_at(a, nmax(a.e, b.e)) < rat_at(b, nmax(a.e, b.e))
}

/// `a` multiplied by itself `k` times.
pub open spec fn rat_pow(a: Rat, k: nat) -> Rat
    decreases k,
{
    if k == 0 {
        rat_one()
    } else {
        rat_mul(rat_pow(a, (k - 1) as nat), a)
    }
}

/// Division of `n` by `m` rounded to the nearest integer, ties away from zero.
pub open spec fn rdiv(n: int, m: int) -> int {
    let q = (2 * abs_int(n) + abs_int(m)) / (2 * abs_int(m));
    if (n < 0) <==> (m < 0) {
        q
    } else {
        -q
    }
}

/// Division of `n` by `m` truncated toward zero.
pub open spec fn tdiv(n: int, m: int) -> int {
    let q = abs_int(n) / abs_int(m);
    if (n < 0) <==> (m < 0) {
        q
    } else {
        -q
    }
}

/// Numerator of `a / b` rounded to the nearest multiple of `10^-d`.
pub open spec fn rat_rdiv_n(a: Rat, b: Rat, d: nat) -> int {
    rdiv(a.n * p10(d + b.e), b.n * p10(a.e))
}

/// `a / b` rounded to the nearest multiple of `10^-d`, ties away from zero.
pub open spec fn rat_rdiv(a: Rat, b: Rat, d: nat) -> Rat {
    Rat { n: rat_rdiv_n(a, b, d), e: d }
}

/// `a` rounded to the nearest multiple of `10^-d`, ties away from zero.
pub open spec fn rat_round(a: Rat, d: nat) -> Rat {
    rat_rdiv(a, rat_one(), d)
}

/// Quotient of `a / b` truncated toward zero to an integer.
pub open spec fn rat_tquot(a: Rat, b: Rat) -> int {
    tdiv(a.n * p10(b.e), b.n * p10(a.e))
}

/// The integer square root: the largest `r >= 0` with `r * r <= n` (0 when `n < 0`).
pub open spec fn isqrt(n: int) -> int
    decreases n,
{
    if n <= 0 {
        0
    } else {
        let r = isqrt(n - 1);
        if (r + 1) * (r + 1) <= n {
            r + 1
        } else {
            r
        }
    }
}

pub proof fn lemma_p10_pos(e: nat)
    ensures
        p10(e) > 0,
{
    lemma_pow_positive(10, e);
}

pub proof fn lemma_p10_adds(a: nat, b: nat)
    ensures
        p10(a + b) == p10(a) * p10(b),
{
    lemma_pow_adds(10, a, b);
}

pub proof fn lemma_p10_zero()
    ensures
        p10(0) == 1,
{
    lemma_pow0(10);
}

pub proof fn lemma_p10_one()
    ensures
        p10(1) == 10,
{
    lemma_pow1(10);
}

pub proof fn lemma_abs_mul_pos(x: int, p: int)
    requires
        p > 0,
    ensures
        abs_int(x * p) == abs_int(x) * p,
        (x * p < 0) <==> (x < 0),
        (x * p == 0) <==> (x == 0),
        x > 0 ==> x * p >= p,
{
    assert(abs_int(x * p) == abs_int(x) * p && ((x * p < 0) <==> (x < 0)) && ((x * p == 0)
        <==> (x == 0)) && (x > 0 ==> x * p >= p)) by (nonlinear_arith)
        requires
            p > 0,
    ;
}

/// How nearest rounding relates to the Euclidean quotient and remainder.
pub proof fn lemma_rdiv_char(nn: int, dd: int, q: int, rem: int)
    requires
        nn >= 0,
        dd > 0,
        nn == q * dd + rem,
        0 <= rem < dd,
    ensures
        rdiv(nn, dd) == if 2 * rem < dd { q } else { q + 1 },
        q >= 0,
        rdiv(nn, dd) >= 0,
        nn == 0 ==> rdiv(nn, dd) == 0,
{
    assert(q >= 0) by (nonlinear_arith)
        requires
            nn >= 0,
            dd > 0,
            nn == q * dd + rem,
            rem < dd,
    ;
    let x = 2 * nn + dd;
    if 2 * rem < dd {
        assert(x == q * (2 * dd) + (2 * rem + dd)) by (nonlinear_arith)
            requires
                nn == q * dd + rem,
                x == 2 * nn + dd,
        ;
        lemma_fundamental_div_mod_converse(x, 2 * dd, q, 2 * rem + dd);
    } else {
        assert(x == (q + 1) * (2 * dd) + (2 * rem - dd)) by (nonlinear_arith)
            requires
                nn == q * dd + rem,
                x == 2 * nn + dd,
        ;
        lemma_fundamental_div_mod_converse(x, 2 * dd, q + 1, 2 * rem - dd);
    }
    if nn == 0 {
        assert(q == 0 && rem == 0) by (nonlinear_arith)
            requires
                0 == q * dd + rem,
                0 <= rem < dd,
                q >= 0,
        ;
    }
}

/// Nearest rounding lands within half a divisor of the dividend:
/// `|rdiv(n, m) * m - n| <= |m| / 2`.
pub proof fn lemma_rdiv_close(n: int, m: int)
    requires
        m != 0,
    ensures
        2 * abs_int(rdiv(n, m) * m - n) <= abs_int(m),
{
    let na = abs_int(n);
    let ma = abs_int(m);
    vstd::arithmetic::div_mod::lemma_fundamental_div_mod(na, ma);
    let q0 = na / ma;
    let r0 = na % ma;
    lemma_rdiv_char(na, ma, q0, r0);
    let qa = rdiv(na, ma);
    assert(2 * abs_int(qa * ma - na) <= ma) by (nonlinear_arith)
        requires
            na == q0 * ma + r0,
            0 <= r0 < ma,
            qa == if 2 * r0 < ma { q0 } else { q0 + 1 },
    ;
    assert(abs_int(abs_int(n)) == abs_int(n));
    assert(abs_int(abs_int(m)) == abs_int(m));
    assert(rdiv(na, ma) == if (n < 0) <==> (m < 0) { rdiv(n, m) } else { -rdiv(n, m) });
    assert(2 * abs_int(rdiv(n, m) * m - n) <= abs_int(m)) by (nonlinear_arith)
        requires
            2 * abs_int(qa * ma - na) <= ma,
            na == abs_int(n),
            ma == abs_int(m),
            m != 0,
            qa == if (n < 0) <==> (m < 0) { rdiv(n, m) } else { -rdiv(n, m) },
    ;
}

/// Truncation stays within one divisor of the dividend:
/// `|tdiv(n, m) * m - n| < m` for positive `m`.
pub proof fn lemma_tdiv_close(n: int, m: int)
    requires
        m > 0,
    ensures
        abs_int(tdiv(n, m) * m - n) < m,
{
    let na = abs_int(n);
    vstd::arithmetic::div_mod::lemma_fundamental_div_mod(na, m);
    let q0 = na / m;
    let r0 = na % m;
    assert(m * q0 == q0 * m) by (nonlinear_arith);
    lemma_tdiv_char(na, m, q0, r0);
    assert(abs_int(abs_int(n)) == abs_int(n));
    assert(abs_int(m) == m);
    assert(tdiv(na, m) == if n >= 0 { tdiv(n, m) } else { -tdiv(n, m) });
    assert(abs_int(tdiv(n, m) * m - n) < m) by (nonlinear_arith)
        requires
            na == q0 * m + r0,
            0 <= r0 < m,
            na == abs_int(n),
            q0 == if n >= 0 { tdiv(n, m) } else { -tdiv(n, m) },
    ;
}

/// Comparison with zero reads off the sign of the numerator.
pub proof fn lemma_rat_sign(a: Rat)
    ensures
        rat_eq(a, rat_zero()) <==> a.n == 0,
        rat_eq(rat_zero(), a) <==> a.n == 0,
        rat_lt(rat_zero(), a) <==> a.n > 0,
        rat_lt(a, rat_zero()) <==> a.n < 0,
        rat_le(rat_zero(), a) <==> a.n >= 0,
        rat_le(a, rat_zero()) <==> a.n <= 0,
{
    lemma_p10_zero();
    lemma_p10_pos(a.e);
    let pa = p10((a.e - a.e) as nat);
    let pz = p10((a.e - 0) as nat);
    assert(pa == 1);
    assert(pz == p10(a.e));
    assert(rat_at(a, a.e) == a.n * pa);
    assert(rat_at(rat_zero(), a.e) == 0 * pz);
    assert(a.n * pa == a.n && 0 * pz == 0) by (nonlinear_arith)
        requires
            pa == 1,
    ;
    assert(nmax(a.e, rat_zero().e) == a.e);
}

/// At a common scale, value equality is numerator equality.
pub proof fn lemma_rat_eq_same_scale(x: Rat, y: Rat)
    requires
        x.e == y.e,
    ensures
        rat_eq(x, y) <==> x.n == y.n,
{
    lemma_p10_zero();
    let px = p10((x.e - x.e) as nat);
    assert(px == 1);
    assert(rat_at(x, x.e) == x.n * px);
    assert(rat_at(y, x.e) == y.n * px);
    assert((x.n * px == y.n * px) <==> x.n == y.n) by (nonlinear_arith)
        requires
            px == 1,
    ;
    assert(nmax(x.e, y.e) == x.e);
}

/// Strict order is the negation of the reverse weak order.
pub proof fn lemma_rat_not_le(a: Rat, b: Rat)
    ensures
        !rat_le(a, b) <==> rat_lt(b, a),
{
    assert(nmax(a.e, b.e) == nmax(b.e, a.e));
}

/// At its own scale a rational reads off its numerator.
pub proof fn lemma_rat_at_self(x: Rat)
    ensures
        rat_at(x, x.e) == x.n,
{
    lemma_p10_zero();
    assert(x.n * p10((x.e - x.e) as nat) == x.n) by (nonlinear_arith)
        requires
            p10((x.e - x.e) as nat) == 1,
    ;
}

/// Rescaling a numerator in two steps is rescaling it in one.
pub proof fn lemma_rat_at_lift(x: Rat, m1: nat, m2: nat)
    requires
        x.e <= m1 <= m2,
    ensures
        rat_at(x, m1) * p10((m2 - m1) as nat) == rat_at(x, m2),
{
    lemma_p10_adds((m1 - x.e) as nat, (m2 - m1) as nat);
    assert((x.n * p10((m1 - x.e) as nat)) * p10((m2 - m1) as nat) == x.n * (p10((m1 - x.e)
        as nat) * p10((m2 - m1) as nat))) by (nonlinear_arith);
}

/// At any scale at least as fine as both operands', the sum's numerator is the
/// sum of the rescaled numerators.
pub proof fn lemma_rat_add_at(x: Rat, y: Rat, m: nat)
    requires
        nmax(x.e, y.e) <= m,
    ensures
        rat_at(rat_add(x, y), m) == rat_at(x, m) + rat_at(y, m),
{
    let m1 = nmax(x.e, y.e);
    lemma_rat_at_lift(x, m1, m);
    lemma_rat_at_lift(y, m1, m);
    assert((rat_at(x, m1) + rat_at(y, m1)) * p10((m - m1) as nat) == rat_at(x, m1) * p10((m
        - m1) as nat) + rat_at(y, m1) * p10((m - m1) as nat)) by (nonlinear_arith);
}

pub proof fn lemma_rat_neg_at(x: Rat, m: nat)
    requires
        x.e <= m,
    ensures
        rat_at(rat_neg(x), m) == -rat_at(x, m),
{
    assert((-x.n) * p10((m - x.e) as nat) == -(x.n * p10((m - x.e) as nat)))
        by (nonlinear_arith);
}

/// The product's numerator at a split common scale is the product of the
/// factors' rescaled numerators.
pub proof fn lemma_rat_mul_at(x: Rat, y: Rat, mx: nat, my: nat)
    requires
        x.e <= mx,
        y.e <= my,
    ensures
        rat_at(rat_mul(x, y), mx + my) == rat_at(x, mx) * rat_at(y, my),
{
    lemma_p10_adds((mx - x.e) as nat, (my - y.e) as nat);
    assert(((mx + my) - (x.e + y.e)) as nat == ((mx - x.e) + (my - y.e)) as nat);
    assert((x.n * y.n) * (p10((mx - x.e) as nat) * p10((my - y.e) as nat)) == (x.n * p10((mx
        - x.e) as nat)) * (y.n * p10((my - y.e) as nat))) by (nonlinear_arith);
}

/// A difference is zero exactly when the operands denote the same value.
pub proof fn lemma_rat_sub_zero(x: Rat, y: Rat)
    ensures
        (rat_sub(x, y).n == 0) <==> rat_eq(x, y),
{
    let m = nmax(x.e, y.e);
    assert(nmax(x.e, rat_neg(y).e) == m);
    lemma_rat_neg_at(y, m);
    assert(rat_sub(x, y).n == rat_at(x, m) + rat_at(rat_neg(y), m));
}

/// Dividing the operands by a common positive factor leaves the rounded
/// quotient unchanged.
pub proof fn lemma_rdiv_scale(n: int, m: int, k: int)
    requires
        m != 0,
        k > 0,
    ensures
        rdiv(n * k, m * k) == rdiv(n, m),
{
    lemma_abs_mul_pos(n, k);
    lemma_abs_mul_pos(m, k);
    let na = abs_int(n);
    let ma = abs_int(m);
    vstd::arithmetic::div_mod::lemma_fundamental_div_mod(2 * na + ma, 2 * ma);
    let q = (2 * na + ma) / (2 * ma);
    let r = (2 * na + ma) % (2 * ma);
    assert(2 * (na * k) + ma * k == q * (2 * (ma * k)) + r * k) by (nonlinear_arith)
        requires
            2 * na + ma == (2 * ma) * q + r,
    ;
    assert(0 <= r * k < 2 * (ma * k)) by (nonlinear_arith)
        requires
            0 <= r < 2 * ma,
            k > 0,
    ;
    assert(ma > 0);
    assert(ma * k > 0) by (nonlinear_arith)
        requires
            ma > 0,
            k > 0,
    ;
    lemma_fundamental_div_mod_converse(2 * (na * k) + ma * k, 2 * (ma * k), q, r * k);
    assert((n * k < 0) <==> (n < 0));
    assert((m * k < 0) <==> (m < 0));
}

/// Rounding respects value equality: equal values round to the same result.
pub proof fn lemma_rat_round_congruent(a: Rat, b: Rat, d: nat)
    requires
        rat_eq(a, b),
    ensures
        rat_round(a, d) == rat_round(b, d),
{
    let m = nmax(a.e, b.e);
    let ka = p10((m - a.e) as nat);
    let kb = p10((m - b.e) as nat);
    lemma_p10_pos((m - a.e) as nat);
    lemma_p10_pos((m - b.e) as nat);
    lemma_p10_pos(a.e);
    lemma_p10_pos(b.e);
    lemma_p10_adds(a.e, (m - a.e) as nat);
    lemma_p10_adds(b.e, (m - b.e) as nat);
    lemma_rdiv_scale(a.n * p10(d + 0), 1 * p10(a.e), ka);
    lemma_rdiv_scale(b.n * p10(d + 0), 1 * p10(b.e), kb);
    assert((a.n * p10(d + 0)) * ka == rat_at(a, m) * p10(d + 0)) by (nonlinear_arith)
        requires
            rat_at(a, m) == a.n * ka,
    ;
    assert((b.n * p10(d + 0)) * kb == rat_at(b, m) * p10(d + 0)) by (nonlinear_arith)
        requires
            rat_at(b, m) == b.n * kb,
    ;
    assert((1 * p10(a.e)) * ka == p10(m)) by (nonlinear_arith)
        requires
            p10(a.e) * ka == p10(m),
    ;
    assert((1 * p10(b.e)) * kb == p10(m)) by (nonlinear_arith)
        requires
            p10(b.e) * kb == p10(m),
    ;
    assert(rdiv(rat_at(a, m) * p10(d + 0), p10(m)) == rdiv(rat_at(b, m) * p10(d + 0), p10(m)));
}

pub proof fn lemma_rdiv_nonneg(n: int, m: int)
    requires
        n >= 0,
        m > 0,
    ensures
        rdiv(n, m) >= 0,
{
    let x = 2 * n + m;
    let d = 2 * m;
    vstd::arithmetic::div_mod::lemma_fundamental_div_mod(x, d);
    assert(x / d >= 0) by (nonlinear_arith)
        requires
            x == d * (x / d) + (x % d),
            0 <= x % d < d,
            x >= 0,
            d > 0,
    ;
}

/// How truncation toward zero relates to the Euclidean quotient and remainder.
pub proof fn lemma_tdiv_char(nn: int, dd: int, q: int, rem: int)
    requires
        nn >= 0,
        dd > 0,
        nn == q * dd + rem,
        0 <= rem < dd,
    ensures
        tdiv(nn, dd) == q,
        q >= 0,
{
    assert(q >= 0) by (nonlinear_arith)
        requires
            nn >= 0,
            dd > 0,
            nn == q * dd + rem,
            rem < dd,
    ;
    lemma_fundamental_div_mod_converse(nn, dd, q, rem);
}

pub proof fn lemma_isqrt_props(n: int)
    ensures
        isqrt(n) >= 0,
        isqrt(n) * isqrt(n) <= abs_int(n),
        n >= 0 ==> n < (isqrt(n) + 1) * (isqrt(n) + 1),
    decreases n,
{
    if n <= 0 {
        assert(isqrt(n) == 0);
    } else {
        lemma_isqrt_props(n - 1);
        let r = isqrt(n - 1);
        if (r + 1) * (r + 1) <= n {
            assert(n < (r + 2) * (r + 2)) by (nonlinear_arith)
                requires
                    r >= 0,
                    n - 1 < (r + 1) * (r + 1),
            ;
        }
    }
}

/// A non-negative integer whose square brackets `n` is the integer square root of `n`.
pub proof fn lemma_isqrt_unique(n: int, r: int)
    requires
        n >= 0,
        r >= 0,
        r * r <= n,
        n < (r + 1) * (r + 1),
    ensures
        r == isqrt(n),
{
    lemma_isqrt_props(n);
    let s = isqrt(n);
    if r < s {
        assert((r + 1) * (r + 1) <= s * s) by (nonlinear_arith)
            requires
                0 <= r,
                r < s,
        ;
    }
    if s < r {
        assert((s + 1) * (s + 1) <= r * r) by (nonlinear_arith)
            requires
                0 <= s,
                s < r,
        ;
    }
}

} // verus!
