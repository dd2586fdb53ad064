use zkvm_rs::field::{Fp, P};

#[test]
fn test_basic_arithmetic() {
    let a = Fp::new(10);
    let b = Fp::new(20);
    assert_eq!((a + b).value(), 30);
    assert_eq!((b - a).value(), 10);
    assert_eq!((a * b).value(), 200);
}

#[test]
fn test_subtraction_underflow() {
    let a = Fp::new(5);
    let b = Fp::new(10);
    let result = a - b;
    // 5 - 10 mod p = p - 5
    assert_eq!(result.value(), P - 5);
    // Adding 10 back gives 5
    assert_eq!((result + b).value(), 5);
}

#[test]
fn test_negation() {
    let a = Fp::new(42);
    let neg_a = -a;
    assert_eq!((a + neg_a).value(), 0);
    assert_eq!((-Fp::zero()).value(), 0);
}

#[test]
fn test_multiplication_large() {
    let a = Fp::new(P - 1);
    let b = Fp::new(P - 1);
    let result = a * b;
    // (p-1)^2 = (-1)^2 = 1
    assert_eq!(result.value(), 1);
}

#[test]
fn test_inverse() {
    let a = Fp::new(42);
    let a_inv = a.inv();
    assert_eq!((a * a_inv).value(), 1);
}

#[test]
fn test_inverse_various() {
    for val in [1, 2, 3, 7, 100, 12345, P - 1] {
        let a = Fp::new(val);
        let a_inv = a.inv();
        assert_eq!((a * a_inv).value(), 1, "failed for {}", val);
    }
}

#[test]
fn field_test_division() {
    let a = Fp::new(100);
    let b = Fp::new(10);
    let result = a / b;
    assert_eq!((result * b).value(), 100);
}

#[test]
fn test_pow() {
    let a = Fp::new(3);
    assert_eq!(a.pow(0).value(), 1);
    assert_eq!(a.pow(1).value(), 3);
    assert_eq!(a.pow(2).value(), 9);
    assert_eq!(a.pow(3).value(), 27);
    assert_eq!(a.pow(10).value(), 59049);
}

#[test]
fn test_root_of_unity() {
    for log_n in 1..=10 {
        let n = 1u64 << log_n;
        let omega = Fp::root_of_unity(n);
        assert_eq!(omega.pow(n).value(), 1, "omega^{} != 1", n);
        if n > 1 {
            assert_ne!(omega.pow(n / 2).value(), 1, "omega is not primitive for order {}", n);
        }
    }
}

#[test]
fn test_new_reduces() {
    let a = Fp::new(P);
    assert_eq!(a.value(), 0);
    let b = Fp::new(P + 1);
    assert_eq!(b.value(), 1);
}

#[test]
fn test_field_identities() {
    let a = Fp::new(12345);
    assert_eq!((a + Fp::zero()).value(), a.value());
    assert_eq!((a * Fp::one()).value(), a.value());
    assert_eq!((a - a).value(), 0);
    assert_eq!((a * a.inv()).value(), 1);
}

#[test]
fn field_ring_laws_on_values() {
    let a = Fp::new(P - 3);
    let b = Fp::new(123_456_789_012);
    let c = Fp::new(98_765);
    assert_eq!(a + b, b + a);
    assert_eq!(a * b, b * a);
    assert_eq!((a + b) + c, a + (b + c));
    assert_eq!((a * b) * c, a * (b * c));
    assert_eq!(a * (b + c), a * b + a * c);
    assert_eq!((a - b) + b, a);
    assert_eq!((a + b) - b, a);
    assert_eq!((a / b) * b, a);
}

#[test]
fn field_reduction_of_large_products() {
    // 2^32 * 2^32 = 2^64 = 2^32 - 1 (mod p)
    let x = Fp::new(1u64 << 32);
    assert_eq!((x * x).value(), (1u64 << 32) - 1);
    // (p - 2) * (p - 3) = 6 (mod p)
    assert_eq!((Fp::new(P - 2) * Fp::new(P - 3)).value(), 6);
}

#[test]
fn field_from_u64_reduces() {
    assert_eq!(Fp::from(P + 7).value(), 7);
    assert_eq!(Fp::from(5u64), Fp::new(5));
    assert_eq!(Fp::from(u64::MAX).value(), u64::MAX - P);
}

#[test]
fn field_root_of_unity_values() {
    assert_eq!(Fp::root_of_unity(1).value(), 1);
    assert_eq!(Fp::root_of_unity(2).value(), P - 1);
    // a primitive 4th root squares to -1
    let w = Fp::root_of_unity(4);
    assert_eq!((w * w).value(), P - 1);
}

#[test]
fn field_negation_of_nonzero() {
    assert_eq!((-Fp::new(1)).value(), P - 1);
    assert_eq!((-Fp::new(P - 1)).value(), 1);
}
