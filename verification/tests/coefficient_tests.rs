use cad_solver::cad::proj::{collect_last_variable_coefficients, differentiate_coefficients, is_constant_for_last_variable};
use cad_solver::cad::specialize::{collect_first_variable_coefficients, generate_constant_polynomial, univariate_to_coefficients};
use cad_solver::cad::univariate::UnivariatePolynomial;
use cad_solver::number::Rat;
use cad_solver::polynomial::{Exponent, Polynomial};

fn poly(terms: &[(&[u32], i64)]) -> Polynomial {
    let mut p = Polynomial::zero();
    for (e, c) in terms {
        p.add_term(Exponent::new(e.to_vec()), Rat::from_i64(*c));
    }
    p
}

#[test]
fn coefficients_of_the_last_variable() {
    // x y^2 + 3 y + 5 in x, y: the coefficients of 1, y, y^2 are 5, 3, x
    let p = poly(&[(&[1, 2], 1), (&[0, 1], 3), (&[0, 0], 5)]);
    let cs = collect_last_variable_coefficients(&p).unwrap();
    assert_eq!(cs.len(), 3);
    assert!(cs[0].equals(&poly(&[(&[0], 5)])));
    assert!(cs[1].equals(&poly(&[(&[0], 3)])));
    assert!(cs[2].equals(&poly(&[(&[1], 1)])));
    let ds = differentiate_coefficients(&cs);
    assert_eq!(ds.len(), 2);
    assert!(ds[0].equals(&poly(&[(&[0], 3)])));
    assert!(ds[1].equals(&poly(&[(&[1], 2)])));
    assert!(!is_constant_for_last_variable(&p));
    assert!(is_constant_for_last_variable(&poly(&[(&[3, 0], 1)])));
}

#[test]
fn coefficients_of_the_first_variable() {
    // x^2 y + 3 x y^2 + 5 in x, y: the coefficients of 1, x, x^2 are 5, 3 y^2, y
    let p = poly(&[(&[2, 1], 1), (&[1, 2], 3), (&[0, 0], 5)]);
    let cs = collect_first_variable_coefficients(&p).unwrap();
    assert_eq!(cs.len(), 3);
    assert!(cs[0].equals(&poly(&[(&[0], 5)])));
    assert!(cs[1].equals(&poly(&[(&[2], 3)])));
    assert!(cs[2].equals(&poly(&[(&[1], 1)])));
}

#[test]
fn constants_as_polynomials() {
    let c = generate_constant_polynomial(2, &Rat::from_i64(7));
    assert!(c.equals(&poly(&[(&[0, 0], 7)])));
    let u = UnivariatePolynomial::from_coeffs(vec![Rat::from_i64(1), Rat::from_i64(-2)]);
    let cs = univariate_to_coefficients(&u, 1);
    assert_eq!(cs.len(), 2);
    assert!(cs[1].equals(&poly(&[(&[0], -2)])));
}
