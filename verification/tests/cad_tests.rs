use cad_solver::cad::binary_search::{calc_sample_points, refine_range, refine_root};
use cad_solver::cad::judge::{is_solution_by_interval, Solution};
use cad_solver::cad::mahler::{evaluate_polynomial_by_mahler, is_sign_consistent, log2_ceil, MahlerResult};
use cad_solver::cad::sturm::Root;
use cad_solver::cad::univariate::UnivariatePolynomial;
use cad_solver::number::{Int, Rat};
use cad_solver::parser::ast::RelOp;
use cad_solver::polynomial::{Exponent, Polynomial};

fn r(k: i64) -> Rat {
    Rat::from_i64(k)
}

fn upoly(cs: &[i64]) -> UnivariatePolynomial {
    UnivariatePolynomial::from_coeffs(cs.iter().map(|&c| r(c)).collect())
}

fn poly(terms: &[(&[u32], i64)]) -> Polynomial {
    let mut p = Polynomial::zero();
    for (e, c) in terms {
        p.add_term(Exponent::new(e.to_vec()), r(*c));
    }
    p
}

#[test]
fn sample_points_surround_the_roots() {
    // the roots 1 and 3, given exactly
    let roots = vec![Root::new_rational(r(3)), Root::new_rational(r(1))];
    let samples = calc_sample_points(&roots).unwrap();
    let values: Vec<Rat> = samples.iter().map(|s| s.get_lower_bound()).collect();
    let expected = [0, 1, 2, 3, 4];
    assert_eq!(values.len(), 5);
    for (v, e) in values.iter().zip(expected.iter()) {
        assert!(v.eq(&r(*e)));
    }
}

#[test]
fn without_roots_zero_is_the_sample() {
    let samples = calc_sample_points(&[]).unwrap();
    assert_eq!(samples.len(), 1);
    assert!(samples[0].get_lower_bound().is_zero());
}

#[test]
fn refining_an_irrational_root_keeps_it_isolated() {
    // sqrt(2) in [1, 2]
    let root = Root::new(upoly(&[-2, 0, 1]), r(1), r(2));
    let refined = refine_root(&root, false).unwrap();
    let (l, h) = refined.get_interval().unwrap();
    assert!(!l.lt(&r(1)) && !r(2).lt(&h));
    assert!(l.mul(&l).lt(&r(2)) || l.mul(&l).eq(&r(2)));
    assert!(r(2).lt(&h.mul(&h)) || h.mul(&h).eq(&r(2)));
    assert!(h.sub(&l).lt(&r(1)));
    let (a, b) = refine_range(&upoly(&[-2, 0, 1]), &r(1), &r(2), false);
    assert!(!a.lt(&r(1)) && !r(2).lt(&b));
    assert!(b.sub(&a).lt(&r(1)));
}

#[test]
fn signs_by_mahler_bounds() {
    // x - 3 at x = 5 is positive, at x = 1 negative, at x = 3 zero
    let p = poly(&[(&[1], 1), (&[0], -3)]);
    assert_eq!(evaluate_polynomial_by_mahler(&p, &[Root::new_rational(r(5))]), MahlerResult::Positive);
    assert_eq!(evaluate_polynomial_by_mahler(&p, &[Root::new_rational(r(1))]), MahlerResult::Negative);
    assert_eq!(evaluate_polynomial_by_mahler(&p, &[Root::new_rational(r(3))]), MahlerResult::Zero);
    assert_eq!(MahlerResult::Positive.satisfies(RelOp::Gt), Some(true));
    assert_eq!(MahlerResult::Negative.satisfies(RelOp::Geq), Some(false));
    assert_eq!(MahlerResult::Uncertain.satisfies(RelOp::Eq), None);
}

#[test]
fn sign_consistency_and_logarithms() {
    assert_eq!(is_sign_consistent(&r(1), &r(2)), Some(true));
    assert_eq!(is_sign_consistent(&r(-2), &r(-1)), Some(false));
    assert_eq!(is_sign_consistent(&r(-1), &r(1)), None);
    assert_eq!(log2_ceil(&Int::from_i64(7)), 3);
    assert_eq!(log2_ceil(&Int::from_i64(8)), 4);
    assert_eq!(log2_ceil(&Int::from_i64(0)), 0);
}

#[test]
fn interval_judgement() {
    // x^2 - 2 > 0 holds at 2, fails at 1
    let p = poly(&[(&[2], 1), (&[0], -2)]);
    let ineqs = vec![(p, RelOp::Gt)];
    match is_solution_by_interval(&ineqs, &[Root::new_rational(r(2))]) {
        Some(Solution::Exist(s)) => assert_eq!(s.len(), 1),
        _ => panic!("expected a solution"),
    }
    match is_solution_by_interval(&ineqs, &[Root::new_rational(r(1))]) {
        Some(Solution::NoSolution) => {},
        _ => panic!("expected no solution"),
    }
}

#[test]
fn bisection_keeps_a_sign_change() {
    // x^3 - 2 changes sign on [0, 4]; each bisection step keeps the change
    let f = upoly(&[-2, 0, 0, 1]);
    let (mut a, mut b) = (r(0), r(4));
    for _ in 0..6 {
        let (na, nb) = refine_range(&f, &a, &b, false);
        assert!(!na.lt(&a) && na.lt(&nb) && !b.lt(&nb));
        assert!(f.substitute(&na).is_negative() || f.substitute(&na).is_zero());
        assert!(f.substitute(&nb).is_positive() || f.substitute(&nb).is_zero());
        a = na;
        b = nb;
    }
    assert_eq!(a.to_text(), "5/4");
    assert_eq!(b.to_text(), "21/16");
}
