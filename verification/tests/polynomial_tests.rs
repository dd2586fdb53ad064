use zkvm_rs::field::{Fp, P};
use zkvm_rs::polynomial::Polynomial;

#[test]
fn test_evaluate() {
    // P(x) = 3 + 2x + x^2
    let p = Polynomial { coeffs: vec![Fp::new(3), Fp::new(2), Fp::new(1)] };
    assert_eq!(p.evaluate(Fp::zero()).value(), 3);
    assert_eq!(p.evaluate(Fp::one()).value(), 6);
    assert_eq!(p.evaluate(Fp::new(2)).value(), 11);
}

#[test]
fn test_interpolation() {
    let xs = vec![Fp::new(0), Fp::new(1), Fp::new(2)];
    let ys = vec![Fp::new(5), Fp::new(10), Fp::new(15)];
    let p = Polynomial::interpolate(&xs, &ys);
    for (x, y) in xs.iter().zip(ys.iter()) {
        assert_eq!(p.evaluate(*x), *y);
    }
}

#[test]
fn test_interpolation_subgroup() {
    let omega = Fp::root_of_unity(4);
    let ys = vec![Fp::new(1), Fp::new(2), Fp::new(3), Fp::new(4)];
    let p = Polynomial::interpolate_subgroup(omega, &ys);
    for (i, y) in ys.iter().enumerate() {
        let x = omega.pow(i as u64);
        assert_eq!(p.evaluate(x), *y);
    }
}

#[test]
fn test_multiplication() {
    // (1 + x) * (1 + x) = 1 + 2x + x^2
    let a = Polynomial { coeffs: vec![Fp::one(), Fp::one()] };
    let b = a.mul(&a);
    assert_eq!(b.evaluate(Fp::new(0)).value(), 1);
    assert_eq!(b.evaluate(Fp::new(1)).value(), 4);
    assert_eq!(b.evaluate(Fp::new(2)).value(), 9);
}

#[test]
fn polynomial_test_division() {
    // (x^2 - 1) / (x - 1) = x + 1
    let num = Polynomial { coeffs: vec![-Fp::one(), Fp::zero(), Fp::one()] };
    let den = Polynomial { coeffs: vec![-Fp::one(), Fp::one()] };
    let q = num.div_exact(&den);
    assert_eq!(q.evaluate(Fp::new(0)).value(), 1);
    assert_eq!(q.evaluate(Fp::new(1)).value(), 2);
}

#[test]
fn test_vanishing() {
    let n = 4;
    let omega = Fp::root_of_unity(n as u64);
    let z = Polynomial::vanishing(n);
    for i in 0..n {
        let x = omega.pow(i as u64);
        assert_eq!(z.evaluate(x), Fp::zero(), "Z_H(omega^{}) != 0", i);
    }
    assert_ne!(z.evaluate(Fp::new(42)), Fp::zero());
}

#[test]
fn polynomial_mul_coefficients() {
    // (1 + 2x)(3 + x + 4x^2) = 3 + 7x + 6x^2 + 8x^3
    let a = Polynomial { coeffs: vec![Fp::new(1), Fp::new(2)] };
    let b = Polynomial { coeffs: vec![Fp::new(3), Fp::new(1), Fp::new(4)] };
    let c = a.mul(&b);
    let got: Vec<u64> = c.coeffs.iter().map(|v| v.value()).collect();
    assert_eq!(got, vec![3, 7, 6, 8]);
    assert!(a.mul(&Polynomial::zero()).coeffs.is_empty());
}

#[test]
fn polynomial_div_rem_values() {
    // (x^3 + 2x + 5) = (x^2 + x + 3) * (x - 1) + 8
    let num = Polynomial { coeffs: vec![Fp::new(5), Fp::new(2), Fp::zero(), Fp::one()] };
    let den = Polynomial { coeffs: vec![-Fp::one(), Fp::one()] };
    let (q, r) = num.div_rem(&den);
    let qv: Vec<u64> = q.coeffs.iter().map(|v| v.value()).collect();
    let rv: Vec<u64> = r.coeffs.iter().map(|v| v.value()).collect();
    assert_eq!(qv, vec![3, 1, 1]);
    assert_eq!(rv, vec![8]);
    // a numerator of lower degree than the divisor is its own remainder
    let small = Polynomial { coeffs: vec![Fp::new(9)] };
    let (q2, r2) = small.div_rem(&den);
    assert!(q2.coeffs.is_empty());
    assert_eq!(r2.coeffs, vec![Fp::new(9)]);
}

#[test]
fn polynomial_add_sub_scale() {
    let a = Polynomial { coeffs: vec![Fp::new(1), Fp::new(2), Fp::new(3)] };
    let b = Polynomial { coeffs: vec![Fp::new(5)] };
    let s: Vec<u64> = a.add(&b).coeffs.iter().map(|v| v.value()).collect();
    assert_eq!(s, vec![6, 2, 3]);
    let d: Vec<u64> = b.sub(&a).coeffs.iter().map(|v| v.value()).collect();
    assert_eq!(d, vec![4, P - 2, P - 3]);
    let k: Vec<u64> = a.scale(Fp::new(10)).coeffs.iter().map(|v| v.value()).collect();
    assert_eq!(k, vec![10, 20, 30]);
}

#[test]
fn polynomial_degree_and_constant() {
    let p = Polynomial { coeffs: vec![Fp::new(1), Fp::new(2), Fp::zero()] };
    assert_eq!(p.degree(), 1);
    assert_eq!(Polynomial::zero().degree(), 0);
    assert!(Polynomial::constant(Fp::zero()).coeffs.is_empty());
    assert_eq!(Polynomial::constant(Fp::new(7)).coeffs, vec![Fp::new(7)]);
}

#[test]
fn polynomial_vanishing_coefficients() {
    let z = Polynomial::vanishing(3);
    let c: Vec<u64> = z.coeffs.iter().map(|v| v.value()).collect();
    assert_eq!(c, vec![P - 1, 0, 0, 1]);
}

#[test]
fn polynomial_interpolation_trims() {
    // points on a constant function give a single coefficient
    let xs = vec![Fp::new(1), Fp::new(2), Fp::new(3)];
    let ys = vec![Fp::new(4), Fp::new(4), Fp::new(4)];
    let p = Polynomial::interpolate(&xs, &ys);
    assert_eq!(p.coeffs, vec![Fp::new(4)]);
    assert!(Polynomial::interpolate(&[], &[]).coeffs.is_empty());
}
