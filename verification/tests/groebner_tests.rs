use cad_solver::coordinate::graph_to_polynomials;
use cad_solver::graph::generate_graph;
use cad_solver::groebner::{groebner_basis, groebner_basis_for_equalities};
use cad_solver::number::Rat;
use cad_solver::parser::ast::RelOp;
use cad_solver::polynomial::{Exponent, Polynomial};

fn poly(terms: &[(&[u32], i64)]) -> Polynomial {
    let mut p = Polynomial::zero();
    for (e, c) in terms {
        p.add_term(Exponent::new(e.to_vec()), Rat::from_i64(*c));
    }
    p
}

#[test]
fn test_groebner_basis() {
    let f1 = poly(&[(&[1, 0, 0], 1), (&[0, 1, 0], 1)]);
    let f2 = poly(&[(&[1, 0, 0], 1), (&[0, 0, 1], 1)]);
    let basis = groebner_basis(&[f1, f2]).unwrap();
    assert_eq!(basis.len(), 2);
}

#[test]
fn basis_of_a_line_and_a_circle() {
    // x - y and x^2 + y^2 - 2: the basis reduces to x - y and y^2 - 1
    let f1 = poly(&[(&[1, 0], 1), (&[0, 1], -1)]);
    let f2 = poly(&[(&[2, 0], 1), (&[0, 2], 1), (&[0, 0], -2)]);
    let basis = groebner_basis(&[f1, f2]).unwrap();
    let line = poly(&[(&[1, 0], 1), (&[0, 1], -1)]);
    let y = poly(&[(&[0, 2], 1), (&[0, 0], -1)]);
    assert_eq!(basis.len(), 2);
    assert!(basis.iter().any(|p| p.equals(&line)));
    assert!(basis.iter().any(|p| p.equals(&y)));
}

#[test]
fn equalities_are_replaced_and_inequalities_kept() {
    let f1 = poly(&[(&[1, 0, 0], 1), (&[0, 1, 0], 1)]);
    let f2 = poly(&[(&[1, 0, 0], 1), (&[0, 0, 1], 1)]);
    let g = poly(&[(&[0, 0, 1], 1)]);
    let input = vec![(f1, RelOp::Eq), (g.duplicate(), RelOp::Gt), (f2, RelOp::Eq)];
    let out = groebner_basis_for_equalities(&input).unwrap();
    assert_eq!(out.len(), 3);
    assert_eq!(out[0].1, RelOp::Eq);
    assert_eq!(out[1].1, RelOp::Eq);
    assert_eq!(out[2].1, RelOp::Gt);
    assert!(out[2].0.equals(&g));
}

#[test]
fn test_diamond() {
    for _ in 0..10 {
        let graph = generate_graph(4, &[(0, 1), (1, 2), (2, 3), (3, 0), (0, 2)]).unwrap();
        let polynomials = graph_to_polynomials(&graph).unwrap();
        assert_eq!(polynomials.len(), 11);
    }
}

#[test]
fn empty_graph_has_no_equations() {
    let graph = generate_graph(0, &[]).unwrap();
    assert_eq!(graph_to_polynomials(&graph).unwrap().len(), 0);
}

#[test]
fn a_basis_that_meets_the_criterion_comes_back_unchanged() {
    // x and y: their S-polynomial is zero, so nothing is added
    let x = poly(&[(&[1, 0], 1)]);
    let y = poly(&[(&[0, 1], 1)]);
    let basis = groebner_basis(&[x.duplicate(), y.duplicate()]).unwrap();
    assert_eq!(basis.len(), 2);
    assert!(basis[0].equals(&x));
    assert!(basis[1].equals(&y));
}

#[test]
fn a_computed_basis_is_its_own_basis() {
    let f1 = poly(&[(&[1, 0], 1), (&[0, 1], -1)]);
    let f2 = poly(&[(&[2, 0], 1), (&[0, 2], 1), (&[0, 0], -2)]);
    let basis = groebner_basis(&[f1, f2]).unwrap();
    let again = groebner_basis(&basis).unwrap();
    assert_eq!(again.len(), basis.len());
    for (a, b) in again.iter().zip(basis.iter()) {
        assert!(a.equals(b));
    }
}

#[test]
fn equations_that_meet_the_criterion_are_kept() {
    let x = poly(&[(&[1, 0], 1)]);
    let y = poly(&[(&[0, 1], 1)]);
    let input = vec![(x.duplicate(), RelOp::Eq), (y.duplicate(), RelOp::Eq)];
    let out = groebner_basis_for_equalities(&input).unwrap();
    assert_eq!(out.len(), 2);
    assert!(out[0].0.equals(&x));
    assert!(out[1].0.equals(&y));
}
