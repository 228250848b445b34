//! The Durand-Kerner (Weierstrass) polynomial root solver: ordered complex
//! coefficients, initial estimates evenly spaced on the unit circle, and a
//! simultaneous fixed-point iteration run until every residual falls under the
//! caller's threshold or the configured iteration cap is reached.

use vstd::prelude::*;
use crate::rat::{
    Rat, rat_int, rat_mul, rat_le, rat_lt, rat_rdiv, rat_round, lemma_rat_sign,
    lemma_rat_eq_same_scale, lemma_rat_not_le,
};
use crate::scalar::{Scalar, swf, sv};
use crate::bigint::bval;
use crate::complex::{
    Complex, Config, Error, DivisionSite, CRat, cv, cwf, cscale, cfg_wf, c_add, c_sub, c_mul,
    c_pow, c_one, c_zero, c_eq, c_div_rounded, cabs_val, cos_of, sin_of, lemma_c_mul_nonzero,
};

verus! {

/// A polynomial: ordered complex coefficients, index = power of the variable
/// (index 0 is the constant term), length = degree + 1.
pub struct EquationWithDegrees {
    parameters: Vec<Complex>,
}

/// The coefficient sequence a polynomial holds.
pub closed spec fn coeffs(eq: EquationWithDegrees) -> Seq<Complex> {
    eq.parameters@
}

/// Every coefficient is well-formed with a bounded scale, and there are at
/// most 1000 of them (a machine limit for the power computations).
pub open spec fn coeffs_wf(s: Seq<Complex>) -> bool {
    &&& s.len() <= 1000
    &&& forall|i: int|
        0 <= i < s.len() ==> cwf(#[trigger] s[i]) && cscale(s[i]) <= 10000
}

/// The polynomial evaluated at `x` over the first `n` coefficients:
/// `s[0] + s[1] x + ... + s[n-1] x^(n-1)`, by exact complex arithmetic.
pub open spec fn eval_prefix(s: Seq<Complex>, x: CRat, n: nat) -> CRat
    decreases n,
{
    if n <= 1 {
        cv(s[0])
    } else {
        c_add(eval_prefix(s, x, (n - 1) as nat), c_mul(cv(s[(n - 1) as int]), c_pow(x, (n - 1)
            as nat)))
    }
}

pub open spec fn eval_poly(s: Seq<Complex>, x: CRat) -> CRat {
    eval_prefix(s, x, s.len())
}

/// Two complex values are treated as the same root when their components,
/// rounded at `d` digits, coincide (this absorbs representation noise in the
/// self-exclusion test of the update divisor).
pub open spec fn rounded_eq(a: CRat, b: CRat, d: nat) -> bool {
    rat_round(a.re, d) == rat_round(b.re, d) && rat_round(a.im, d) == rat_round(b.im, d)
}

/// The values a vector of complex numbers denotes.
pub open spec fn cv_seq(v: Seq<Complex>) -> Seq<CRat> {
    Seq::new(v.len(), |i: int| cv(v[i]))
}

/// The product of the differences `cur - roots[j]` over `j < n`, skipping
/// every root whose rounded components equal `cur`'s.
pub open spec fn prods_prefix(roots: Seq<CRat>, cur: CRat, n: nat, d: nat) -> CRat
    decreases n,
{
    if n == 0 {
        c_one()
    } else {
        let p = prods_prefix(roots, cur, (n - 1) as nat, d);
        if rounded_eq(roots[(n - 1) as int], cur, d) {
            p
        } else {
            c_mul(p, c_sub(cur, roots[(n - 1) as int]))
        }
    }
}

pub open spec fn root_prods(roots: Seq<CRat>, cur: CRat, d: nat) -> CRat {
    prods_prefix(roots, cur, roots.len(), d)
}

/// The residual of a candidate root: the rounded magnitude of the polynomial
/// evaluated there.
pub open spec fn residual(s: Seq<Complex>, z: CRat, d: nat) -> Rat {
    cabs_val(eval_poly(s, z), d)
}

/// The `i`-th initial estimate (1-based) for a polynomial of degree `size`:
/// the point at angle `2 pi i / size` on the unit circle.
pub open spec fn seed_root(i: nat, size: nat, pi: Rat, terms: nat, d: nat) -> CRat {
    let ang = rat_rdiv(rat_mul(rat_int(2 * i as int), pi), rat_int(size as int), d);
    CRat { re: cos_of(ang, pi, terms, d), im: sin_of(ang, pi, terms, d) }
}

/// The Durand-Kerner update of the root at index `i`, from the full previous
/// root vector: the root moves by `p(r_i) / (lead * prod_(j != i) (r_i - r_j))`,
/// the quotient's components rounded at `d`, and the moved root rounded at `d`.
pub open spec fn dk_root(s: Seq<Complex>, roots: Seq<CRat>, i: int, d: nat) -> CRat {
    let res = eval_poly(s, roots[i]);
    let prod = root_prods(roots, roots[i], d);
    let upd = c_div_rounded(res, c_mul(cv(s.last()), prod), d);
    let moved = c_sub(roots[i], upd);
    CRat { re: rat_round(moved.re, d), im: rat_round(moved.im, d) }
}

/// One simultaneous iteration: every root updated from the same previous
/// vector, so the root at index `i` keeps tracking the `i`-th seed.
pub open spec fn dk_step(s: Seq<Complex>, roots: Seq<CRat>, d: nat) -> Seq<CRat> {
    Seq::new(roots.len(), |i: int| dk_root(s, roots, i, d))
}

/// The initial root vector: seed `i` (0-based) on the unit circle.
pub open spec fn seeds(size: nat, pi: Rat, terms: nat, d: nat) -> Seq<CRat> {
    Seq::new(size, |i: int| seed_root((i + 1) as nat, size, pi, terms, d))
}

/// The root vector after `k` simultaneous iterations from the seeds.
pub open spec fn dk_iterate(s: Seq<Complex>, k: nat, size: nat, pi: Rat, terms: nat,
    d: nat) -> Seq<CRat>
    decreases k,
{
    if k == 0 {
        seeds(size, pi, terms, d)
    } else {
        dk_step(s, dk_iterate(s, (k - 1) as nat, size, pi, terms, d), d)
    }
}

/// The trace of the solver on a polynomial under a configuration.
pub open spec fn dk_trace(s: Seq<Complex>, cfg: Config, k: nat) -> Seq<CRat> {
    dk_iterate(s, k, (s.len() - 1) as nat, sv(cfg.pi), cfg.terms as nat, cfg.digits as nat)
}

/// Every root of the vector has its residual at or under the threshold.
pub open spec fn step_converged(s: Seq<Complex>, roots: Seq<CRat>, threshold: Scalar,
    d: nat) -> bool {
    forall|i: int|
        0 <= i < roots.len() ==> rat_le(residual(s, #[trigger] roots[i], d), sv(threshold))
}

/// The returned roots are the Durand-Kerner trace stopped at the first
/// iteration whose residuals all pass: together with the trace being a
/// function of the inputs, this makes the solver deterministic and keeps the
/// index-to-seed identity of the root vector.
pub open spec fn converged_trace(roots: Seq<Complex>, s: Seq<Complex>, threshold: Scalar,
    cfg: Config) -> bool {
    exists|k: nat|
        1 <= k <= cfg.max_iterations && cv_seq(roots) == #[trigger] dk_trace(s, cfg, k)
            && step_converged(s, dk_trace(s, cfg, k), threshold, cfg.digits as nat) && (
        forall|k2: nat|
            1 <= k2 < k ==> !step_converged(s, #[trigger] dk_trace(s, cfg, k2), threshold,
            cfg.digits as nat))
}

/// The returned roots are the trace at the iteration cap, and no earlier
/// iteration had every residual under the threshold.
pub open spec fn capped_trace(roots: Seq<Complex>, s: Seq<Complex>, threshold: Scalar,
    cfg: Config) -> bool {
    cv_seq(roots) == dk_trace(s, cfg, cfg.max_iterations as nat) && (forall|k2: nat|
        1 <= k2 <= cfg.max_iterations ==> !step_converged(s, #[trigger] dk_trace(s, cfg, k2),
        threshold, cfg.digits as nat))
}

/// Each returned residual is the residual of the root at the same index.
pub open spec fn residuals_match(residuals: Seq<Scalar>, roots: Seq<Complex>, s: Seq<Complex>,
    d: nat) -> bool {
    &&& residuals.len() == roots.len()
    &&& forall|i: int|
        0 <= i < roots.len() ==> sv(#[trigger] residuals[i]) == residual(s, cv(roots[i]), d)
}

/// Some residual lies strictly above the threshold.
pub open spec fn some_residual_above(residuals: Seq<Scalar>, threshold: Scalar) -> bool {
    exists|i: int| 0 <= i < residuals.len() && rat_lt(sv(threshold), sv(#[trigger] residuals[i]))
}

/// Every root's residual lies at or under the threshold.
pub open spec fn all_residuals_within(roots: Seq<Complex>, s: Seq<Complex>, threshold: Scalar,
    d: nat) -> bool {
    forall|i: int|
        0 <= i < roots.len() ==> rat_le(residual(s, cv(#[trigger] roots[i]), d), sv(threshold))
}

/// A root vector is well-formed when every entry's components are at the
/// configured scale.
pub open spec fn roots_wf(r: Seq<Complex>, d: nat) -> bool {
    forall|i: int|
        0 <= i < r.len() ==> cwf(#[trigger] r[i]) && r[i].real.scale == d
            && r[i].imaginary.scale == d
}

impl EquationWithDegrees {
    /// A polynomial with the given coefficients; index = power, the constant
    /// term first.
    pub fn new(parameters: Vec<Complex>) -> (r: EquationWithDegrees)
        ensures
            coeffs(r) == parameters@,
    {
        EquationWithDegrees { parameters }
    }

    /// Run the Durand-Kerner iteration until every residual is at most
    /// `threshold`, or the configured iteration cap is reached. The returned
    /// roots are the deterministic iteration trace (see `dk_trace`) stopped at
    /// the first passing iteration, so the root at index `i` is the
    /// approximation tracking the `i`-th initial seed.
    ///
    /// Fails with `DegenerateInput` exactly when the polynomial has fewer than
    /// two coefficients or a zero leading coefficient. On success every
    /// returned root's residual is at most the threshold; at the cap the
    /// best-known roots come back inside `NotConverged`, together with their
    /// residuals, at least one of which is above the threshold. A division by
    /// zero is never reported: the update divisor is the non-zero leading
    /// coefficient times a product of non-zero differences, and the exact
    /// complex rationals have no zero divisors.
    #[verifier::rlimit(100)]
    pub fn solve(&self, threshold: &Scalar, cfg: &Config) -> (r: Result<Vec<Complex>, Error>)
        requires
            coeffs_wf(coeffs(*self)),
            swf(*threshold),
            cfg_wf(*cfg),
        ensures
            (r == Err::<Vec<Complex>, Error>(Error::DegenerateInput) <==> (coeffs(*self).len()
                < 2 || c_eq(cv(coeffs(*self).last()), c_zero()))),
            r matches Ok(roots) ==> roots.len() + 1 == coeffs(*self).len() && roots_wf(roots@,
            cfg.digits as nat) && all_residuals_within(roots@, coeffs(*self), *threshold,
            cfg.digits as nat) && converged_trace(roots@, coeffs(*self), *threshold, *cfg),
            !(r matches Err(Error::DivisionByZero(_))),
            r matches Err(Error::NotConverged { roots, residuals }) ==> roots.len() + 1
                == coeffs(*self).len() && roots_wf(roots@, cfg.digits as nat) && residuals_match(
            residuals@, roots@, coeffs(*self), cfg.digits as nat) && some_residual_above(
            residuals@, *threshold) && capped_trace(roots@, coeffs(*self), *threshold, *cfg),
    {
        let n = self.parameters.len();
        if n < 2 {
            return Err(Error::DegenerateInput);
        }
        let zero = Scalar::zero();
        let lead = &self.parameters[n - 1];
        if lead.real.eq_val(&zero) && lead.imaginary.eq_val(&zero) {
            return Err(Error::DegenerateInput);
        }
        proof {
            assert(!c_eq(cv(coeffs(*self).last()), c_zero()));
        }
        let mut roots = initial_roots(n - 1, cfg);
        proof {
            assert(cv_seq(roots@) == dk_trace(coeffs(*self), *cfg, 0));
        }
        let mut residuals_last: Vec<Scalar> = Vec::new();
        let mut iter: u64 = 0;
        while iter < cfg.max_iterations
            invariant
                coeffs_wf(coeffs(*self)),
                swf(*threshold),
                cfg_wf(*cfg),
                2 <= n <= 1000,
                n == coeffs(*self).len(),
                roots.len() == n - 1,
                roots_wf(roots@, cfg.digits as nat),
                iter <= cfg.max_iterations,
                !c_eq(cv(coeffs(*self).last()), c_zero()),
                cv_seq(roots@) == dk_trace(coeffs(*self), *cfg, iter as nat),
                forall|k2: nat|
                    1 <= k2 <= iter as nat ==> !step_converged(coeffs(*self),
                    #[trigger] dk_trace(coeffs(*self), *cfg, k2), *threshold, cfg.digits
                        as nat),
                iter >= 1 ==> residuals_match(residuals_last@, roots@, coeffs(*self),
                cfg.digits as nat) && some_residual_above(residuals_last@, *threshold),
            decreases cfg.max_iterations - iter,
        {
            let mut new_roots: Vec<Complex> = Vec::new();
            let mut i: usize = 0;
            while i < roots.len()
                invariant
                    coeffs_wf(coeffs(*self)),
                    cfg_wf(*cfg),
                    2 <= n <= 1000,
                    n == coeffs(*self).len(),
                    roots.len() == n - 1,
                    roots_wf(roots@, cfg.digits as nat),
                    !c_eq(cv(coeffs(*self).last()), c_zero()),
                    i <= roots.len(),
                    new_roots.len() == i,
                    roots_wf(new_roots@, cfg.digits as nat),
                    forall|jj: int|
                        0 <= jj < i ==> cv(#[trigger] new_roots@[jj]) == dk_root(coeffs(*self),
                        cv_seq(roots@), jj, cfg.digits as nat),
                decreases roots.len() - i,
            {
                let res = calc_eq(self, &roots[i]);
                let prod = calc_root_prods(&roots, &roots[i], cfg);
                // scale the divisor by the leading coefficient, so that the
                // update contracts toward the roots of non-monic polynomials
                let scaled = self.parameters[n - 1].mul(&prod);
                proof {
                    assert(coeffs(*self).last() == coeffs(*self)[n - 1]);
                    lemma_c_mul_nonzero(cv(self.parameters@[n - 1]), cv(prod));
                }
                let upd = match res.div(&scaled, cfg.digits) {
                    Ok(q) => q,
                    Err(_) => {
                        // unreachable: the leading coefficient and every retained
                        // difference are non-zero, and the exact complex rationals
                        // have no zero divisors
                        proof {
                            assert(false);
                        }
                        return Err(Error::DivisionByZero(DivisionSite::RootCollapse));
                    },
                };
                let moved = roots[i].sub(&upd);
                let new_root = Complex {
                    real: moved.real.round(cfg.digits),
                    imaginary: moved.imaginary.round(cfg.digits),
                };
                proof {
                    let rc = cv_seq(roots@);
                    assert(rc[i as int] == cv(roots@[i as int]));
                    assert(cv(res) == eval_poly(coeffs(*self), rc[i as int]));
                    assert(cv(prod) == root_prods(rc, rc[i as int], cfg.digits as nat));
                    assert(cv(scaled) == c_mul(cv(coeffs(*self).last()), cv(prod)));
                    assert(cv(upd) == c_div_rounded(cv(res), cv(scaled), cfg.digits as nat));
                    assert(cv(moved) == c_sub(rc[i as int], cv(upd)));
                    assert(cv(new_root) == dk_root(coeffs(*self), rc, i as int, cfg.digits
                        as nat));
                }
                new_roots.push(new_root);
                i += 1;
            }
            let mut residuals: Vec<Scalar> = Vec::new();
            let mut all_ok = true;
            let mut k: usize = 0;
            while k < new_roots.len()
                invariant
                    coeffs_wf(coeffs(*self)),
                    swf(*threshold),
                    cfg_wf(*cfg),
                    2 <= n <= 1000,
                    n == coeffs(*self).len(),
                    new_roots.len() == n - 1,
                    roots_wf(new_roots@, cfg.digits as nat),
                    k <= new_roots.len(),
                    residuals.len() == k,
                    forall|j: int|
                        0 <= j < k ==> sv(#[trigger] residuals@[j]) == residual(coeffs(*self),
                        cv(new_roots@[j]), cfg.digits as nat),
                    all_ok <==> (forall|j: int|
                        0 <= j < k ==> rat_le(residual(coeffs(*self), cv(
                        #[trigger] new_roots@[j]), cfg.digits as nat), sv(*threshold))),
                decreases new_roots.len() - k,
            {
                let res = calc_eq(self, &new_roots[k]);
                let err = res.abs(cfg);
                if !err.le(threshold) {
                    all_ok = false;
                }
                residuals.push(err);
                k += 1;
            }
            proof {
                assert(cv_seq(new_roots@) =~= dk_step(coeffs(*self), cv_seq(roots@),
                cfg.digits as nat));
                assert(dk_trace(coeffs(*self), *cfg, (iter + 1) as nat) == dk_step(coeffs(
                *self), dk_trace(coeffs(*self), *cfg, iter as nat), cfg.digits as nat));
                assert(cv_seq(new_roots@) == dk_trace(coeffs(*self), *cfg, (iter + 1) as nat));
            }
            roots = new_roots;
            if all_ok {
                proof {
                    assert(all_residuals_within(roots@, coeffs(*self), *threshold, cfg.digits
                        as nat));
                    assert(step_converged(coeffs(*self), dk_trace(coeffs(*self), *cfg, (iter
                        + 1) as nat), *threshold, cfg.digits as nat)) by {
                        assert forall|i2: int|
                            0 <= i2 < cv_seq(roots@).len() implies rat_le(residual(coeffs(
                        *self), #[trigger] cv_seq(roots@)[i2], cfg.digits as nat), sv(
                        *threshold)) by {
                            assert(cv_seq(roots@)[i2] == cv(roots@[i2]));
                        };
                    };
                    assert(converged_trace(roots@, coeffs(*self), *threshold, *cfg)) by {
                        let kw = (iter + 1) as nat;
                        assert(1 <= kw <= cfg.max_iterations && cv_seq(roots@) == dk_trace(
                        coeffs(*self), *cfg, kw) && step_converged(coeffs(*self), dk_trace(
                        coeffs(*self), *cfg, kw), *threshold, cfg.digits as nat) && (forall|
                        k2: nat|
                            1 <= k2 < kw ==> !step_converged(coeffs(*self), #[trigger] dk_trace(
                            coeffs(*self), *cfg, k2), *threshold, cfg.digits as nat)));
                    };
                }
                return Ok(roots);
            }
            proof {
                assert(exists|i: int|
                    0 <= i < roots.len() && !rat_le(residual(coeffs(*self), cv(
                    #[trigger] roots@[i]), cfg.digits as nat), sv(*threshold)));
                let w = choose|i: int|
                    0 <= i < roots.len() && !rat_le(residual(coeffs(*self), cv(
                    #[trigger] roots@[i]), cfg.digits as nat), sv(*threshold));
                lemma_rat_not_le(residual(coeffs(*self), cv(roots@[w]), cfg.digits as nat), sv(
                *threshold));
                assert(rat_lt(sv(*threshold), sv(residuals@[w])));
                assert(residuals_match(residuals@, roots@, coeffs(*self), cfg.digits as nat));
                assert(some_residual_above(residuals@, *threshold));
                assert(!step_converged(coeffs(*self), dk_trace(coeffs(*self), *cfg, (iter + 1)
                    as nat), *threshold, cfg.digits as nat)) by {
                    assert(cv_seq(roots@)[w] == cv(roots@[w]));
                    assert(!rat_le(residual(coeffs(*self), cv_seq(roots@)[w], cfg.digits
                        as nat), sv(*threshold)));
                };
            }
            residuals_last = residuals;
            iter += 1;
        }
        proof {
            assert(iter >= 1);
            assert(capped_trace(roots@, coeffs(*self), *threshold, *cfg));
        }
        Err(Error::NotConverged { roots, residuals: residuals_last })
    }
}

/// `size` initial complex estimates evenly spaced on the unit circle:
/// estimate `i` (1-based) sits at angle `2 pi i / size`.
fn initial_roots(size: usize, cfg: &Config) -> (r: Vec<Complex>)
    requires
        cfg_wf(*cfg),
        1 <= size <= 1000,
    ensures
        r.len() == size,
        roots_wf(r@, cfg.digits as nat),
        forall|i: int|
            0 <= i < size ==> cv(#[trigger] r@[i]) == seed_root((i + 1) as nat, size as nat, sv(
            cfg.pi), cfg.terms as nat, cfg.digits as nat),
        cv_seq(r@) == seeds(size as nat, sv(cfg.pi), cfg.terms as nat, cfg.digits as nat),
{
    let mut r: Vec<Complex> = Vec::new();
    let mut i: usize = 1;
    let den = Scalar::from_int(size as i64);
    proof {
        lemma_rat_sign(sv(den));
    }
    while i <= size
        invariant
            cfg_wf(*cfg),
            1 <= size <= 1000,
            1 <= i <= size + 1,
            swf(den),
            sv(den) == rat_int(size as int),
            bval(den.num) != 0,
            r.len() == i - 1,
            roots_wf(r@, cfg.digits as nat),
            forall|j: int|
                0 <= j < i - 1 ==> cv(#[trigger] r@[j]) == seed_root((j + 1) as nat, size as nat,
                sv(cfg.pi), cfg.terms as nat, cfg.digits as nat),
        decreases size + 1 - i,
    {
        let two_i = Scalar::from_int(2 * (i as i64));
        let ang = two_i.mul(&cfg.pi).div(&den, cfg.digits);
        let re = Complex::calc_cos(&ang, cfg);
        let im = Complex::calc_sin(&ang, cfg);
        r.push(Complex { real: re, imaginary: im });
        i += 1;
    }
    proof {
        assert(cv_seq(r@) =~= seeds(size as nat, sv(cfg.pi), cfg.terms as nat, cfg.digits
            as nat));
    }
    r
}

/// The polynomial evaluated at `x`: the constant term plus each coefficient
/// times the matching direct power of `x`.
fn calc_eq(eq: &EquationWithDegrees, x: &Complex) -> (r: Complex)
    requires
        coeffs_wf(coeffs(*eq)),
        coeffs(*eq).len() >= 1,
        cwf(*x),
        cscale(*x) <= 10000,
    ensures
        cwf(r),
        cv(r) == eval_poly(coeffs(*eq), cv(*x)),
        cscale(r) <= 20010000,
{
    let mut result = eq.parameters[0].dup();
    let mut k: usize = 1;
    while k < eq.parameters.len()
        invariant
            coeffs_wf(coeffs(*eq)),
            coeffs(*eq) == eq.parameters@,
            1 <= k <= eq.parameters.len(),
            eq.parameters.len() >= 1,
            cwf(*x),
            cscale(*x) <= 10000,
            cwf(result),
            cv(result) == eval_prefix(coeffs(*eq), cv(*x), k as nat),
            cscale(result) <= 20010000,
        decreases eq.parameters.len() - k,
    {
        let pw = Complex::complex_pow(x, k as i32);
        proof {
            assert(cscale(pw) <= 10000 * 1000) by (nonlinear_arith)
                requires
                    cscale(pw) <= cscale(*x) * (k as nat),
                    cscale(*x) <= 10000,
                    0 < k < 1000,
            ;
        }
        let term = eq.parameters[k].mul(&pw);
        result = result.add(&term);
        k += 1;
    }
    result
}

/// The product of the differences between the current root and every other
/// root, where "other" means not equal after rounding both components.
fn calc_root_prods(roots: &Vec<Complex>, current: &Complex, cfg: &Config) -> (r: Complex)
    requires
        cfg_wf(*cfg),
        roots.len() <= 1000,
        roots_wf(roots@, cfg.digits as nat),
        cwf(*current),
        current.real.scale == cfg.digits,
        current.imaginary.scale == cfg.digits,
    ensures
        cwf(r),
        cv(r) == root_prods(cv_seq(roots@), cv(*current), cfg.digits as nat),
        cscale(r) <= 20010000,
        !c_eq(cv(r), c_zero()),
{
    let mut result = Complex::init(1, 0);
    proof {
        lemma_rat_sign(cv(result).re);
        lemma_rat_sign(cv(result).im);
    }
    let cre = current.real.round(cfg.digits);
    let cim = current.imaginary.round(cfg.digits);
    let mut j: usize = 0;
    while j < roots.len()
        invariant
            cfg_wf(*cfg),
            roots.len() <= 1000,
            roots_wf(roots@, cfg.digits as nat),
            cwf(*current),
            current.real.scale == cfg.digits,
            current.imaginary.scale == cfg.digits,
            swf(cre),
            swf(cim),
            sv(cre) == rat_round(cv(*current).re, cfg.digits as nat),
            sv(cim) == rat_round(cv(*current).im, cfg.digits as nat),
            cre.scale == cfg.digits,
            cim.scale == cfg.digits,
            j <= roots.len(),
            cwf(result),
            cv(result) == prods_prefix(cv_seq(roots@), cv(*current), j as nat, cfg.digits
                as nat),
            cscale(result) <= cfg.digits * j,
            !c_eq(cv(result), c_zero()),
        decreases roots.len() - j,
    {
        let root = &roots[j];
        let rre = root.real.round(cfg.digits);
        let rim = root.imaginary.round(cfg.digits);
        proof {
            assert(cv_seq(roots@)[j as int] == cv(roots@[j as int]));
            lemma_rat_eq_same_scale(sv(rre), sv(cre));
            lemma_rat_eq_same_scale(sv(rim), sv(cim));
            assert(cscale(result) + cscale(*current) <= 10000 * 1000 + 10000)
                by (nonlinear_arith)
                requires
                    cscale(result) <= cfg.digits * j,
                    cfg.digits <= 10000,
                    0 <= j < 1000,
                    cscale(*current) <= 10000,
            ;
        }
        let same = rre.eq_val(&cre) && rim.eq_val(&cim);
        if !same {
            proof {
                // the retained factor is non-zero: a zero difference would
                // make both rounded components coincide
                let diff = c_sub(cv(*current), cv(roots@[j as int]));
                if c_eq(diff, c_zero()) {
                    lemma_rat_sign(diff.re);
                    lemma_rat_sign(diff.im);
                    crate::rat::lemma_rat_sub_zero(cv(*current).re, cv(roots@[j as int]).re);
                    crate::rat::lemma_rat_sub_zero(cv(*current).im, cv(roots@[j as int]).im);
                    crate::rat::lemma_rat_round_congruent(cv(*current).re, cv(
                    roots@[j as int]).re, cfg.digits as nat);
                    crate::rat::lemma_rat_round_congruent(cv(*current).im, cv(
                    roots@[j as int]).im, cfg.digits as nat);
                    assert(false);
                }
                lemma_c_mul_nonzero(cv(result), diff);
            }
            result = result.mul(&current.sub(root));
            proof {
                assert(cscale(result) <= cfg.digits * (j + 1)) by (nonlinear_arith)
                    requires
                        cscale(result) <= cfg.digits * j + cfg.digits,
                ;
            }
        } else {
            proof {
                assert(cscale(result) <= cfg.digits * (j + 1)) by (nonlinear_arith)
                    requires
                        cscale(result) <= cfg.digits * j,
                        cfg.digits >= 0,
                ;
            }
        }
        j += 1;
    }
    proof {
        assert(cscale(result) <= 20010000) by (nonlinear_arith)
            requires
                cscale(result) <= cfg.digits * roots@.len(),
                cfg.digits <= 10000,
                roots@.len() <= 1000,
        ;
    }
    result
}

} // verus!
