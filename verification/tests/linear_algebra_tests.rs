use cad_solver::linear_algebra::{
    generate_random_linear_polynomials, generate_random_matrix_vector, matrix_vector_to_polynomial, LinearError,
};
use cad_solver::number::Rat;
use cad_solver::polynomial::{Exponent, Polynomial};

fn r(k: i64) -> Rat {
    Rat::from_i64(k)
}

#[test]
fn rows_become_affine_polynomials() {
    // 2 x0 - x1 = 3 becomes 2 x0 - x1 - 3; 0 x0 + 5 x1 = 0 becomes 5 x1
    let m = vec![vec![r(2), r(-1)], vec![r(0), r(5)]];
    let b = vec![r(3), r(0)];
    let ps = matrix_vector_to_polynomial(&m, &b).unwrap();
    assert_eq!(ps.len(), 2);
    let mut p0 = Polynomial::zero();
    p0.add_term(Exponent::new(vec![1, 0]), r(2));
    p0.add_term(Exponent::new(vec![0, 1]), r(-1));
    p0.add_term(Exponent::new(vec![0, 0]), r(-3));
    assert!(ps[0].equals(&p0));
    let mut p1 = Polynomial::zero();
    p1.add_term(Exponent::new(vec![0, 1]), r(5));
    assert!(ps[1].equals(&p1));
}

#[test]
fn mismatched_shapes_are_errors() {
    let m = vec![vec![r(1)], vec![r(2)]];
    assert_eq!(matrix_vector_to_polynomial(&m, &vec![r(1)]).err(), Some(LinearError::RowCountMismatch));
    let m = vec![vec![r(1)], vec![r(2), r(3)]];
    assert_eq!(matrix_vector_to_polynomial(&m, &vec![r(1), r(1)]).err(), Some(LinearError::RowLengthMismatch));
}

#[test]
fn random_systems_have_small_entries() {
    let (m, v) = generate_random_matrix_vector(3, 4);
    assert_eq!(m.len(), 3);
    assert_eq!(v.len(), 3);
    for row in &m {
        assert_eq!(row.len(), 4);
        for x in row {
            assert!(!x.lt(&r(-10)) && !r(10).lt(x));
        }
    }
    let ps = generate_random_linear_polynomials(2, 2).unwrap();
    assert_eq!(ps.len(), 2);
}
