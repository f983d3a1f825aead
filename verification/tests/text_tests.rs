use cad_solver::cad::judge::{sample_point_to_string, Solution};
use cad_solver::cad::sturm::Root;
use cad_solver::cad::univariate::UnivariatePolynomial;
use cad_solver::graph::generate_graph;
use cad_solver::number::{Int, Rat};
use cad_solver::polynomial::{Exponent, Polynomial};

fn r(k: i64) -> Rat {
    Rat::from_i64(k)
}

fn upoly(cs: &[i64]) -> UnivariatePolynomial {
    UnivariatePolynomial::from_coeffs(cs.iter().map(|&c| r(c)).collect())
}

#[test]
fn numbers_and_monomials() {
    assert_eq!(Rat::new(&Int::from_i64(-1), &Int::from_i64(2)).to_text(), "-1/2");
    assert_eq!(r(12).to_text(), "12");
    assert_eq!(Exponent::new(vec![2, 0, 1]).to_text(), "x1^2x3");
    assert_eq!(Exponent::new(vec![0, 0]).to_text(), "");
}

#[test]
fn polynomial_text() {
    let mut p = Polynomial::zero();
    p.add_term(Exponent::new(vec![0, 0]), r(1));
    p.add_term(Exponent::new(vec![0, 1]), Rat::new(&Int::from_i64(-1), &Int::from_i64(2)));
    p.add_term(Exponent::new(vec![2, 0]), r(3));
    assert_eq!(p.to_text(), "3x1^2 - 1/2x2 + 1");
    assert_eq!(Polynomial::zero().to_text(), "0");
}

#[test]
fn univariate_text() {
    assert_eq!(upoly(&[-2, 0, 1]).to_text(), "x^2 - 2 ");
    assert_eq!(upoly(&[1, 3]).to_text(), "3x + 1 ");
}

#[test]
fn root_and_solution_text() {
    assert_eq!(Root::new_rational(r(3)).to_text(), "3");
    assert_eq!(Root::new(upoly(&[-2, 0, 1]), r(1), r(2)).to_text(), "[1, 2] (x^2 - 2 )");
    assert_eq!(Solution::NoSolution.to_text(), "No solution");
    let s = Solution::Exist(vec![Root::new_rational(r(3)), Root::new_rational(r(-1))]);
    assert_eq!(s.to_text(), "Exist: (3, -1)");
}

#[test]
fn sample_point_text() {
    let sample = vec![Root::new_rational(r(3)), Root::new(upoly(&[-2, 0, 1]), r(1), r(2))];
    assert_eq!(sample_point_to_string(&sample), "(3, [1, 2] (x^2 - 2 ))");
    assert_eq!(sample_point_to_string(&[]), "()");
}

#[test]
fn graph_text() {
    let g = generate_graph(3, &[(1, 0)]).unwrap();
    assert_eq!(g.to_text(), "Node count: 3\n0: 1 \n1: 0 \n2: No neighbors\n");
}
