use complex_roots::complex::{Complex, Config, Error};
use complex_roots::equation::EquationWithDegrees;
use complex_roots::scalar::Scalar;

fn dec(neg: bool, digits: &[u8], scale: usize) -> Scalar {
    Scalar::from_parts(neg, digits.to_vec(), scale).unwrap()
}

fn close(a: &Complex, re: &Scalar, im: &Scalar, tol: &Scalar) -> bool {
    a.real.sub(re).abs().lt(tol) && a.imaginary.sub(im).abs().lt(tol)
}

/// Evaluate the polynomial with the given coefficients at `z` and return the
/// magnitude of the value.
fn residual_of(coeffs: &[Complex], z: &Complex, cfg: &Config) -> Scalar {
    let mut acc = coeffs[0].dup();
    for (k, c) in coeffs.iter().enumerate().skip(1) {
        acc = acc.add(&c.mul(&Complex::complex_pow(z, k as i32)));
    }
    acc.abs(cfg)
}

#[test]
fn test_quadratic_polynomial() {
    let cfg = Config::standard();
    // x^2 - 1 = 0
    let parameters = vec![
        Complex::from_big_decimal(&Scalar::from_int(-1), &Scalar::from_int(0)),
        Complex::from_big_decimal(&Scalar::from_int(0), &Scalar::from_int(0)),
        Complex::from_big_decimal(&Scalar::from_int(1), &Scalar::from_int(0)),
    ];
    let equation = EquationWithDegrees::new(parameters);
    let threshold = dec(false, &[1], 3); // 0.001
    let roots = equation.solve(&threshold, &cfg).unwrap();

    let expected_root1 = Complex::from_big_decimal(&Scalar::from_int(1), &Scalar::from_int(0));
    let expected_root2 = Complex::from_big_decimal(&Scalar::from_int(-1), &Scalar::from_int(0));

    assert!(roots.iter().any(|root| root.sub(&expected_root1).abs(&cfg).lt(&threshold)));
    assert!(roots.iter().any(|root| root.sub(&expected_root2).abs(&cfg).lt(&threshold)));
}

#[test]
fn cubic_roots_of_unity() {
    let cfg = Config::standard();
    // x^3 - 1 = 0 -> roots 1, -0.5 +- 0.866i
    let parameters = vec![
        Complex::init(-1, 0),
        Complex::init(0, 0),
        Complex::init(0, 0),
        Complex::init(1, 0),
    ];
    let equation = EquationWithDegrees::new(parameters);
    let threshold = dec(false, &[1], 3);
    let roots = equation.solve(&threshold, &cfg).unwrap();
    assert_eq!(roots.len(), 3);

    let one = Scalar::from_int(1);
    let zero = Scalar::from_int(0);
    let half = dec(true, &[5], 1); // -0.5
    let im = dec(false, &[8, 6, 6], 3); // 0.866
    let tol = dec(false, &[1], 2);
    assert!(roots.iter().any(|r| close(r, &one, &zero, &tol)));
    assert!(roots.iter().any(|r| close(r, &half, &im, &tol)));
    assert!(roots.iter().any(|r| close(r, &half, &im.neg(), &tol)));
}

#[test]
fn general_cubic_converges() {
    let cfg = Config::standard();
    // 2x^3 + 6x^2 - 2x - 1 = 0
    let coeffs = vec![
        Complex::init(-1, 0),
        Complex::init(-2, 0),
        Complex::init(6, 0),
        Complex::init(2, 0),
    ];
    let equation = EquationWithDegrees::new(coeffs.iter().map(|c| c.dup()).collect());
    let threshold = dec(false, &[1], 3);
    let roots = equation.solve(&threshold, &cfg).unwrap();
    assert_eq!(roots.len(), 3);
    // every returned root satisfies the equation to the threshold
    for root in &roots {
        assert!(residual_of(&coeffs, root, &cfg).le(&threshold));
    }
    // odd degree with real coefficients: at least one root is essentially real
    assert!(roots.iter().any(|r| r.imaginary.abs().lt(&threshold)));
    // the roots are pairwise distinct
    let tol = dec(false, &[1], 2);
    for i in 0..roots.len() {
        for j in 0..i {
            assert!(!roots[i].sub(&roots[j]).abs(&cfg).lt(&tol));
        }
    }
}

#[test]
fn degenerate_single_coefficient() {
    let cfg = Config::standard();
    let equation = EquationWithDegrees::new(vec![Complex::init(5, 0)]);
    let threshold = dec(false, &[1], 3);
    assert!(matches!(equation.solve(&threshold, &cfg), Err(Error::DegenerateInput)));
}

#[test]
fn degenerate_zero_leading_coefficient() {
    let cfg = Config::standard();
    let equation = EquationWithDegrees::new(vec![
        Complex::init(1, 0),
        Complex::init(2, 0),
        Complex::init(0, 0),
    ]);
    let threshold = dec(false, &[1], 3);
    assert!(matches!(equation.solve(&threshold, &cfg), Err(Error::DegenerateInput)));
}

#[test]
fn iteration_cap_yields_not_converged() {
    // x^2 - 2 = 0 with an unreachable threshold: a residual is a magnitude
    // and never negative, so the cap must fire.
    let base = Config::standard();
    let cfg = Config { pi: base.pi, terms: base.terms, digits: base.digits, max_iterations: 40 };
    let equation = EquationWithDegrees::new(vec![
        Complex::init(-2, 0),
        Complex::init(0, 0),
        Complex::init(1, 0),
    ]);
    let threshold = Scalar::from_int(-1);
    match equation.solve(&threshold, &cfg) {
        Err(Error::NotConverged { roots, residuals }) => {
            assert_eq!(roots.len(), 2);
            assert_eq!(residuals.len(), 2);
            // the best-known roots are still good approximations of +-sqrt(2)
            let s2 = Scalar::from_int(2).sqrt(50);
            let tol = dec(false, &[1], 3);
            assert!(roots.iter().any(|r| close(r, &s2, &Scalar::from_int(0), &tol)));
            assert!(roots.iter().any(|r| close(r, &s2.neg(), &Scalar::from_int(0), &tol)));
            // and at least one reported residual sits above the threshold
            assert!(residuals.iter().any(|e| threshold.lt(e)));
        },
        _ => panic!("expected the iteration cap to be reported"),
    }
}
