use complex_roots::complex::{Complex, Config, DivisionSite, Error};
use complex_roots::scalar::Scalar;

fn dec(neg: bool, digits: &[u8], scale: usize) -> Scalar {
    Scalar::from_parts(neg, digits.to_vec(), scale).unwrap()
}

fn small_tol() -> Scalar {
    // 0.0001
    dec(false, &[1], 4)
}

#[test]
fn test_new() {
    let complex = Complex::new();
    assert!(complex.real.eq_val(&Scalar::from_int(0)));
    assert!(complex.imaginary.eq_val(&Scalar::from_int(0)));
}

#[test]
fn test_init() {
    let complex = Complex::init(3, 4);
    assert!(complex.real.eq_val(&Scalar::from_int(3)));
    assert!(complex.imaginary.eq_val(&Scalar::from_int(4)));
}

#[test]
fn test_conjugate() {
    let complex = Complex::init(3, 4);
    let conjugate = Complex::conjugate(&complex);
    assert!(conjugate.real.eq_val(&Scalar::from_int(3)));
    assert!(conjugate.imaginary.eq_val(&Scalar::from_int(-4)));
}

#[test]
fn test_add() {
    let complex1 = Complex::init(3, 4);
    let complex2 = Complex::init(1, 2);
    let result = complex1.add(&complex2);
    assert!(result.real.eq_val(&Scalar::from_int(4)));
    assert!(result.imaginary.eq_val(&Scalar::from_int(6)));
}

#[test]
fn test_sub() {
    let complex1 = Complex::init(5, 7);
    let complex2 = Complex::init(3, 2);
    let result = complex1.sub(&complex2);
    assert!(result.real.eq_val(&Scalar::from_int(2)));
    assert!(result.imaginary.eq_val(&Scalar::from_int(5)));
}

#[test]
fn test_mul() {
    let complex1 = Complex::init(1, 2);
    let complex2 = Complex::init(3, 4);
    let result = complex1.mul(&complex2);
    // (1 + 2i) * (3 + 4i) = -5 + 10i
    assert!(result.real.eq_val(&Scalar::from_int(-5)));
    assert!(result.imaginary.eq_val(&Scalar::from_int(10)));
}

#[test]
fn test_div() {
    let complex1 = Complex::init(3, 2);
    let complex2 = Complex::init(4, -3);
    let result = complex1.div(&complex2, 50).unwrap();
    // (3 + 2i) / (4 - 3i) = 6/25 + 17/25i
    let expected_re = dec(false, &[2, 4], 2); // 0.24
    let expected_im = dec(false, &[6, 8], 2); // 0.68
    assert!(result.real.sub(&expected_re).lt(&small_tol()));
    assert!(result.imaginary.sub(&expected_im).lt(&small_tol()));
}

#[test]
fn test_pow() {
    let complex = Complex::init(2, 3);
    let result = Complex::complex_pow(&complex, 5);
    // (2 + 3i)^5 = 122 - 597i
    assert!(result.real.sub(&Scalar::from_int(122)).abs().lt(&small_tol()));
    assert!(result.imaginary.sub(&Scalar::from_int(-597)).abs().lt(&small_tol()));
}

#[test]
fn test_to_polar_and_from_polar() {
    let cfg = Config::standard();
    let complex = Complex::init(1, 1);
    let (r, theta) = Complex::to_polar(&complex, &cfg).unwrap();
    // r = sqrt(1^2 + 1^2) = sqrt(2), theta = arctan(1/1) = pi/4
    let expected_r = Scalar::from_int(2).sqrt(cfg.digits);
    let expected_theta = cfg.pi.div(&Scalar::from_int(4), cfg.digits);
    assert!(r.sub(&expected_r).lt(&small_tol()));
    assert!(theta.sub(&expected_theta).lt(&small_tol()));

    let complex_back = Complex::from_polar(&r, &theta, &cfg);
    assert!(complex_back.real.sub(&Scalar::from_int(1)).lt(&small_tol()));
    assert!(complex_back.imaginary.sub(&Scalar::from_int(1)).lt(&small_tol()));
}

#[test]
fn field_laws_on_sample_values() {
    let a = Complex::init(1, 2);
    let b = Complex::init(3, -4);
    let c = Complex::init(-5, 7);
    // a + b == b + a
    let ab = a.add(&b);
    let ba = b.add(&a);
    assert!(ab.real.eq_val(&ba.real) && ab.imaginary.eq_val(&ba.imaginary));
    // (a + b) + c == a + (b + c)
    let l = a.add(&b).add(&c);
    let r = a.add(&b.add(&c));
    assert!(l.real.eq_val(&r.real) && l.imaginary.eq_val(&r.imaginary));
    // a * (b + c) == a * b + a * c
    let l2 = a.mul(&b.add(&c));
    let r2 = a.mul(&b).add(&a.mul(&c));
    assert!(l2.real.eq_val(&r2.real) && l2.imaginary.eq_val(&r2.imaginary));
}

#[test]
fn division_multiplication_inverse() {
    // (a / b) * b stays within 1e-9 of a
    let a = Complex::init(3, 2);
    let b = Complex::init(4, -3);
    let q = a.div(&b, 50).unwrap();
    let back = q.mul(&b);
    let tol = dec(false, &[1], 9);
    assert!(back.real.sub(&a.real).abs().lt(&tol));
    assert!(back.imaginary.sub(&a.imaginary).abs().lt(&tol));
}

#[test]
fn polar_round_trip_nonunit() {
    let cfg = Config::standard();
    let z = Complex::init(3, -2);
    let (r, theta) = Complex::to_polar(&z, &cfg).unwrap();
    let back = Complex::from_polar(&r, &theta, &cfg);
    let tol = dec(false, &[1], 6);
    assert!(back.real.sub(&z.real).abs().lt(&tol));
    assert!(back.imaginary.sub(&z.imaginary).abs().lt(&tol));
}

#[test]
fn power_consistency_direct_vs_polar() {
    let cfg = Config::standard();
    let z = Complex::init(2, 1);
    let n = 3;
    let direct = Complex::complex_pow(&z, n);
    let polar = Complex::pow(&z, n, &cfg).unwrap();
    let tol = dec(false, &[1], 6);
    assert!(direct.real.sub(&polar.real).abs().lt(&tol));
    assert!(direct.imaginary.sub(&polar.imaginary).abs().lt(&tol));
}

#[test]
fn fast_pow_small_exponents() {
    let b = Scalar::from_int(3);
    let expected: [(u64, i64); 4] = [(0, 1), (1, 3), (2, 9), (7, 2187)];
    for (n, want) in expected {
        assert!(Complex::fast_pow(&b, n).eq_val(&Scalar::from_int(want)));
    }
    // 3^16 = 43046721
    assert!(Complex::fast_pow(&b, 16).eq_val(&Scalar::from_int(43046721)));
    // 1.5^2 = 2.25, and 0^0 = 1
    let half3 = dec(false, &[1, 5], 1);
    assert!(Complex::fast_pow(&half3, 2).eq_val(&dec(false, &[2, 2, 5], 2)));
    assert!(Complex::fast_pow(&Scalar::from_int(0), 0).eq_val(&Scalar::from_int(1)));
}

#[test]
fn trigonometry_reference_points() {
    let cfg = Config::standard();
    let tol = dec(false, &[1], 6);
    // cos 0 = 1, sin 0 = 0
    let zero = Scalar::from_int(0);
    assert!(Complex::calc_cos(&zero, &cfg).eq_val(&Scalar::from_int(1)));
    assert!(Complex::calc_sin(&zero, &cfg).eq_val(&zero));
    // cos pi close to -1, sin pi close to 0
    assert!(Complex::calc_cos(&cfg.pi, &cfg).sub(&Scalar::from_int(-1)).abs().lt(&tol));
    assert!(Complex::calc_sin(&cfg.pi, &cfg).abs().lt(&tol));
    // arctan 1 is exactly the rounded pi / 4
    let quarter = cfg.pi.div(&Scalar::from_int(4), cfg.digits);
    assert!(Complex::calc_arctan(&Scalar::from_int(1), &cfg).eq_val(&quarter));
    // arctan(-1) = -pi/4
    assert!(Complex::calc_arctan(&Scalar::from_int(-1), &cfg).eq_val(&quarter.neg()));
    // arctan of a large argument approaches pi/2: arctan(1000) within 0.01 of pi/2
    let half_pi = cfg.pi.div(&Scalar::from_int(2), cfg.digits);
    let big = Complex::calc_arctan(&Scalar::from_int(1000), &cfg);
    assert!(big.sub(&half_pi).abs().lt(&dec(false, &[1], 2)));
}

#[test]
fn exp_of_real_unit() {
    let cfg = Config::standard();
    // e^(1 + 0i) = (e, 0); e = 2.718281828459045...
    let z = Complex::init(1, 0);
    let r = Complex::exp(&z, &cfg);
    let e_approx = dec(false, &[2, 7, 1, 8, 2, 8, 1, 8, 2, 8, 4, 5, 9, 0, 4, 5], 15);
    assert!(r.real.sub(&e_approx).abs().lt(&dec(false, &[1], 9)));
    assert!(r.imaginary.eq_val(&Scalar::from_int(0)));
}

#[test]
fn division_by_zero_is_reported() {
    let a = Complex::init(1, 1);
    let r = a.div(&Complex::new(), 50);
    assert!(matches!(r, Err(Error::DivisionByZero(DivisionSite::ComplexDivision))));
    // a purely imaginary number has no polar angle through im / re
    let cfg = Config::standard();
    let p = Complex::to_polar(&Complex::init(0, 5), &cfg);
    assert!(matches!(p, Err(Error::DivisionByZero(DivisionSite::ArctangentRatio))));
}

#[test]
fn scalar_rounding_and_truncation() {
    // 1.2345 rounded at 2 digits is 1.23; 0.005 rounds away from zero to 0.01
    let x = dec(false, &[1, 2, 3, 4, 5], 4);
    assert!(x.round(2).eq_val(&dec(false, &[1, 2, 3], 2)));
    assert!(dec(false, &[5], 3).round(2).eq_val(&dec(false, &[1], 2)));
    // truncated integer quotients: 7 / 2 = 3 and -7 / 2 = -3
    let seven = Scalar::from_int(7);
    let two = Scalar::from_int(2);
    assert!(seven.div_trunc(&two).eq_val(&Scalar::from_int(3)));
    assert!(seven.neg().div_trunc(&two).eq_val(&Scalar::from_int(-3)));
    // comparisons
    assert!(dec(false, &[9, 9], 2).lt(&Scalar::from_int(1)));
    assert!(Scalar::from_int(-2).le(&Scalar::from_int(-2)));
    // sqrt(2) squared stays within 1e-40 of 2
    let s = Scalar::from_int(2).sqrt(50);
    assert!(s.mul(&s).sub(&Scalar::from_int(2)).abs().lt(&dec(false, &[1], 40)));
}
