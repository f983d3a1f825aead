use cad_solver::cad::matrix::{generate_neg_list, is_odd_permutation, Matrix};
use cad_solver::cad::polynomial_matrix::{polynomial_matrix_determinant, solve_linear_system};
use cad_solver::cad::rational_matrix::{determinant, rational_matrix_determinant};
use cad_solver::number::Rat;
use cad_solver::polynomial::{Exponent, Polynomial};

fn r(k: i64) -> Rat {
    Rat::from_i64(k)
}

fn constant(k: i64) -> Polynomial {
    let mut p = Polynomial::zero();
    p.add_term(Exponent::new(vec![]), r(k));
    p
}

#[test]
fn matrix_test_determinant() {
    let mat_vec = vec![vec![8, 5, -3], vec![0, 7, 3], vec![-2, -1, 1]];
    let mut m = Matrix::zero(3).unwrap();
    for i in 0..3 {
        for j in 0..3 {
            m.set(i, j, r(mat_vec[i][j]));
        }
    }
    let neg_list = generate_neg_list(3);
    assert!(m.determinant(&neg_list).eq(&r(8)));
}

#[test]
fn odd_permutations_of_three() {
    let neg = generate_neg_list(3);
    assert_eq!(neg.len(), 3);
    for p in &neg {
        assert!(is_odd_permutation(p));
    }
    assert!(!is_odd_permutation(&[0, 1, 2]));
    assert!(is_odd_permutation(&[1, 0, 2]));
    assert!(!is_odd_permutation(&[1, 2, 0]));
}

#[test]
fn empty_matrix_is_refused() {
    assert!(Matrix::zero(0).is_err());
}

#[test]
fn test_solve_linear_system() {
    // 2x + y = 8, 3x + 2y = 3 has the solution x = 13, y = -18
    let a = vec![vec![r(2), r(1)], vec![r(3), r(2)]];
    let b = vec![r(8), r(3)];
    let solution = solve_linear_system(&a, &b).unwrap();
    assert!(solution[0].eq(&r(13)));
    assert!(solution[1].eq(&r(-18)));
}

#[test]
fn singular_or_malformed_systems_have_no_solution() {
    let a = vec![vec![r(1), r(2)], vec![r(2), r(4)]];
    assert!(solve_linear_system(&a, &[r(1), r(2)]).is_none());
    let a = vec![vec![r(1), r(2)]];
    assert!(solve_linear_system(&a, &[r(1)]).is_none());
    let a = vec![vec![r(1)]];
    assert!(solve_linear_system(&a, &[r(1), r(2)]).is_none());
}

#[test]
fn rational_matrix_test_determinant() {
    let mat = vec![vec![r(1), r(2)], vec![r(3), r(4)]];
    assert!(determinant(&mat).eq(&r(-2)));
}

#[test]
fn determinant_edge_cases() {
    let empty: Vec<Vec<Rat>> = vec![];
    assert!(determinant(&empty).eq(&r(1)));
    assert!(determinant(&[vec![r(7)]]).eq(&r(7)));
    let singular = vec![vec![r(1), r(2)], vec![r(2), r(4)]];
    assert!(determinant(&singular).is_zero());
    let swapped = vec![vec![r(0), r(1)], vec![r(1), r(0)]];
    assert!(determinant(&swapped).eq(&r(-1)));
}

#[test]
fn determinant_of_constant_polynomials() {
    let m = vec![vec![constant(1), constant(2)], vec![constant(3), constant(4)]];
    assert!(rational_matrix_determinant(m).unwrap().eq(&r(-2)));
    let mut x = Polynomial::zero();
    x.add_term(Exponent::new(vec![1]), r(1));
    let m = vec![vec![x, constant(2)], vec![constant(3), constant(4)]];
    assert!(rational_matrix_determinant(m).is_none());
}

#[test]
fn determinant_of_a_polynomial_matrix() {
    // det [[x, 1], [1, x]] = x^2 - 1
    let mut x = Polynomial::zero();
    x.add_term(Exponent::new(vec![1]), r(1));
    let mut one = Polynomial::zero();
    one.add_term(Exponent::new(vec![0]), r(1));
    let m = vec![vec![x.duplicate(), one.duplicate()], vec![one, x]];
    let d = polynomial_matrix_determinant(m).unwrap();
    let mut expected = Polynomial::zero();
    expected.add_term(Exponent::new(vec![2]), r(1));
    expected.add_term(Exponent::new(vec![0]), r(-1));
    assert!(d.equals(&expected));
}

#[test]
fn non_square_polynomial_matrix_is_refused() {
    let m = vec![vec![constant(1), constant(2)]];
    assert!(polynomial_matrix_determinant(m).is_none());
}
