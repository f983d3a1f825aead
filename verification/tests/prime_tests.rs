use cad_solver::prime::{is_prime, PrimeField, PrimeIter};

#[test]
fn test_prime_iter() {
    let mut prime_iter = PrimeIter::new();
    let primes = [2, 3, 5, 7, 11, 13, 17, 19, 23, 29];
    for &p in primes.iter() {
        assert_eq!(prime_iter.next(), Some(p));
    }
}

#[test]
fn primality() {
    assert!(!is_prime(0));
    assert!(!is_prime(1));
    assert!(is_prime(2));
    assert!(is_prime(97));
    assert!(!is_prime(91));
}

#[test]
fn field_arithmetic_wraps_modulo_p() {
    let a = PrimeField::new(5, 7);
    let b = PrimeField::new(4, 7);
    assert_eq!(a.clone().add(b.clone()).get_value(), 2);
    assert_eq!(a.clone().sub(b.clone()).get_value(), 1);
    assert_eq!(b.clone().sub(a.clone()).get_value(), 6);
    assert_eq!(a.clone().mul(b.clone()).get_value(), 6);
    assert_eq!(a.neg().get_value(), 2);
    assert!(PrimeField::new(14, 7).is_zero());
}
