use cad_solver::cad::univariate::{
    polynomial_to_univariate, uni_poly_derivative, uni_poly_div, uni_poly_remainder, ConversionError,
    UnivariatePolynomial,
};
use cad_solver::number::Rat;
use cad_solver::polynomial::{Exponent, Polynomial};

fn poly(cs: &[i64]) -> UnivariatePolynomial {
    UnivariatePolynomial::from_coeffs(cs.iter().map(|&c| Rat::from_i64(c)).collect())
}

fn coeffs(p: &UnivariatePolynomial) -> Vec<Rat> {
    p.iter().iter().map(|c| c.duplicate()).collect()
}

fn same(a: &UnivariatePolynomial, b: &UnivariatePolynomial) -> bool {
    let (x, y) = (coeffs(a), coeffs(b));
    x.len() == y.len() && x.iter().zip(y.iter()).all(|(p, q)| p.eq(q))
}

#[test]
fn test_remainder() {
    let f = poly(&[9, 24, 31, 23, 8, 1]);
    let g = poly(&[4, 8, 5, 1]);
    let r = uni_poly_remainder(&f, &g).unwrap();
    let expected = poly(&[9, 12, 3]);
    assert!(same(&r, &expected));
    let r2 = uni_poly_remainder(&g, &r).unwrap();
    assert!(same(&r2, &poly(&[1, 1])));
    let r3 = uni_poly_remainder(&r, &r2).unwrap();
    assert!(same(&r3, &poly(&[0])));
}

#[test]
fn remainder_by_zero_is_none() {
    assert!(uni_poly_remainder(&poly(&[1, 2]), &poly(&[0])).is_none());
    assert!(same(&uni_poly_remainder(&poly(&[1, 2]), &poly(&[3])).unwrap(), &poly(&[0])));
}

#[test]
fn division_gives_quotient() {
    // (x^2 - 1) / (x - 1) = x + 1
    let q = uni_poly_div(&poly(&[-1, 0, 1]), &poly(&[-1, 1])).unwrap();
    assert!(same(&q, &poly(&[1, 1])));
    // degree of the dividend below that of the divisor
    assert!(same(&uni_poly_div(&poly(&[5]), &poly(&[-1, 1])).unwrap(), &poly(&[0])));
    assert!(uni_poly_div(&poly(&[5]), &poly(&[0])).is_none());
}

#[test]
fn derivative_and_evaluation() {
    let p = poly(&[1, 2, 3]);
    assert!(same(&uni_poly_derivative(&p), &poly(&[2, 6])));
    assert!(same(&uni_poly_derivative(&poly(&[7])), &poly(&[0])));
    assert!(p.substitute(&Rat::from_i64(2)).eq(&Rat::from_i64(17)));
    assert_eq!(p.degree(), 2);
    assert!(poly(&[0, 0]).is_zero());
    assert_eq!(poly(&[1, 0, 0]).degree(), 0);
}

#[test]
fn arithmetic_cleans_trailing_zeros() {
    let a = poly(&[1, 2, 3]);
    let b = poly(&[1, 1, -3]);
    assert!(same(&a.add(&b), &poly(&[2, 3])));
    assert!(same(&a.sub(&a), &poly(&[0])));
    assert!(same(&a.neg(), &poly(&[-1, -2, -3])));
    let m = poly(&[2, 4]).monic();
    assert!(same(&m, &UnivariatePolynomial::from_coeffs(vec![Rat::from_i64(1) .div(&Rat::from_i64(2)), Rat::from_i64(1)])));
}

#[test]
fn conversion_from_polynomial() {
    let mut p = Polynomial::zero();
    p.add_term(Exponent::new(vec![2]), Rat::from_i64(3));
    p.add_term(Exponent::new(vec![]), Rat::from_i64(-1));
    let u = polynomial_to_univariate(&p).unwrap();
    assert!(same(&u, &poly(&[-1, 0, 3])));
    let mut q = Polynomial::zero();
    q.add_term(Exponent::new(vec![1, 1]), Rat::from_i64(1));
    assert_eq!(polynomial_to_univariate(&q).err(), Some(ConversionError::NotUnivariate));
}
