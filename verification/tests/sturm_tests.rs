use cad_solver::cad::sturm::{isolate_roots, square_free_part, Root};
use cad_solver::cad::univariate::UnivariatePolynomial;
use cad_solver::number::Rat;

fn poly(cs: &[i64]) -> UnivariatePolynomial {
    UnivariatePolynomial::from_coeffs(cs.iter().map(|&c| Rat::from_i64(c)).collect())
}

fn same(a: &UnivariatePolynomial, b: &UnivariatePolynomial) -> bool {
    let (x, y) = (a.iter(), b.iter());
    x.len() == y.len() && x.iter().zip(y.iter()).all(|(p, q)| p.eq(q))
}

#[test]
fn test_square_free_part() {
    // (x+1)(x+1)(x-1) = x^3 + x^2 - x - 1 loses its double factor: x^2 - 1
    let p = poly(&[-1, -1, 1, 1]);
    let result = square_free_part(&p);
    assert!(same(&result, &poly(&[-1, 0, 1])));
}

#[test]
fn roots_of_linear_polynomials_are_exact() {
    let r = Root::new(poly(&[-3, 1]), Rat::from_i64(0), Rat::from_i64(0));
    assert!(r.get_lower_bound().eq(&Rat::from_i64(3)));
    assert!(r.get_interval().is_none());
    let s = Root::new_rational(Rat::from_i64(3));
    assert!(r.is_same_root(&s));
    let t = Root::new(poly(&[-2, 0, 1]), Rat::from_i64(1), Rat::from_i64(2));
    let u = Root::new(poly(&[-2, 0, 1]), Rat::from_i64(0), Rat::from_i64(3));
    assert!(t.is_same_root(&u));
    assert!(!t.is_same_root(&s));
    let (l, h) = t.get_interval().unwrap();
    assert!(l.eq(&Rat::from_i64(1)) && h.eq(&Rat::from_i64(2)));
}

#[test]
fn roots_of_a_square_free_factor_are_isolated() {
    // x^2 - 2: the roots -sqrt(2) and sqrt(2) in (-2, 0] and (0, 2]
    let f = UnivariatePolynomial::from_coeffs(vec![Rat::from_i64(-2), Rat::from_i64(0), Rat::from_i64(1)]);
    let roots = isolate_roots(&f).unwrap();
    assert_eq!(roots.len(), 2);
    let (a, b) = roots[0].get_interval().unwrap();
    assert!(a.eq(&Rat::from_i64(0)) && b.eq(&Rat::from_i64(2)));
    let (c, d) = roots[1].get_interval().unwrap();
    assert!(c.eq(&Rat::from_i64(-2)) && d.eq(&Rat::from_i64(0)));
}

#[test]
fn a_linear_factor_has_its_exact_root() {
    let f = UnivariatePolynomial::from_coeffs(vec![Rat::from_i64(-3), Rat::from_i64(1)]);
    let roots = isolate_roots(&f).unwrap();
    assert_eq!(roots.len(), 1);
    assert!(roots[0].get_interval().is_none());
    assert_eq!(roots[0].to_text(), "3");
}

#[test]
fn a_factor_without_real_roots_has_none() {
    let f = UnivariatePolynomial::from_coeffs(vec![Rat::from_i64(1), Rat::from_i64(0), Rat::from_i64(1)]);
    assert_eq!(isolate_roots(&f).unwrap().len(), 0);
}
