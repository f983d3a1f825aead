use cad_solver::number::{Int, Rat};
use cad_solver::polyfactor::{monicize, rational_to_integer_coeffs};

fn q(n: i64, d: i64) -> Rat {
    Rat::new(&Int::from_i64(n), &Int::from_i64(d))
}

#[test]
fn test_rational_to_integer_coeffs() {
    let coeffs = vec![q(1, 2), q(5, 6), q(7, 4)];
    let out = rational_to_integer_coeffs(&coeffs);
    let expected = [6, 10, 21];
    assert_eq!(out.len(), 3);
    for (a, b) in out.iter().zip(expected.iter()) {
        assert!(a.eq(&Int::from_i64(*b)));
    }
}

#[test]
fn test_monicize() {
    let coeffs = vec![Int::from_i64(2), Int::from_i64(3), Int::from_i64(4)];
    let (out, lead) = monicize(&coeffs);
    let expected = [8, 3, 1];
    assert_eq!(out.len(), 3);
    for (a, b) in out.iter().zip(expected.iter()) {
        assert!(a.eq(&Int::from_i64(*b)));
    }
    assert!(lead.eq(&Int::from_i64(4)));
}
