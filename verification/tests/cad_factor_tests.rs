use cad_solver::cad::factor::{factors_to_polynomials, univariate_of};
use cad_solver::cad::univariate::UnivariatePolynomial;
use cad_solver::number::Rat;
use cad_solver::polynomial::{Exponent, Polynomial};

fn poly(terms: &[(&[u32], i64)]) -> Polynomial {
    let mut p = Polynomial::zero();
    for (e, c) in terms {
        p.add_term(Exponent::new(e.to_vec()), Rat::from_i64(*c));
    }
    p
}

fn upoly(cs: &[i64]) -> UnivariatePolynomial {
    UnivariatePolynomial::from_coeffs(cs.iter().map(|&c| Rat::from_i64(c)).collect())
}

fn coeffs_are(u: &UnivariatePolynomial, cs: &[i64]) -> bool {
    let xs = u.iter();
    xs.len() == cs.len() && xs.iter().zip(cs.iter()).all(|(x, &c)| x.eq(&Rat::from_i64(c)))
}

#[test]
fn a_polynomial_in_one_of_its_variables_becomes_univariate() {
    // 3 y^2 - 1 in the variables x, y
    let p = poly(&[(&[0, 2], 3), (&[0, 0], -1)]);
    let (v, u) = univariate_of(&p).unwrap();
    assert_eq!(v, 1);
    assert!(coeffs_are(&u, &[-1, 0, 3]));
}

#[test]
fn two_variables_or_none_give_no_univariate_polynomial() {
    assert!(univariate_of(&poly(&[(&[1, 1], 1)])).is_none());
    assert!(univariate_of(&poly(&[(&[1, 0], 1), (&[0, 1], 1)])).is_none());
    assert!(univariate_of(&poly(&[(&[0, 0], 5)])).is_none());
    assert!(univariate_of(&Polynomial::zero()).is_none());
}

#[test]
fn factors_become_polynomials_in_the_chosen_variable() {
    // y + 2 and y^2 - 3 in the variables x, y, z
    let out = factors_to_polynomials(1, 3, &[upoly(&[2, 1]), upoly(&[-3, 0, 1])]);
    assert_eq!(out.len(), 2);
    assert!(out[0].equals(&poly(&[(&[0, 1, 0], 1), (&[0, 0, 0], 2)])));
    assert!(out[1].equals(&poly(&[(&[0, 2, 0], 1), (&[0, 0, 0], -3)])));
}

#[test]
fn a_univariate_polynomial_lifts_back_to_itself() {
    let p = poly(&[(&[0, 3], 2), (&[0, 1], -5), (&[0, 0], 7)]);
    let (v, u) = univariate_of(&p).unwrap();
    let back = factors_to_polynomials(v, 2, &[u]);
    assert!(back[0].equals(&p));
}
