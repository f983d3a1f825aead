use cad_solver::big_int_poly::BigIntPoly;
use cad_solver::factor_combination::{center_coefficients, reconstruct_factor_list, reconstruct_factors};
use cad_solver::number::Int;
use vec1::Vec1;

fn poly(cs: &[i64]) -> BigIntPoly {
    BigIntPoly::new(Vec1::try_from_vec(cs.iter().map(|&c| Int::from_i64(c)).collect()).unwrap())
}

fn has(p: &BigIntPoly, cs: &[i64]) -> bool {
    let xs = p.iter();
    xs.len() == cs.len() && xs.iter().zip(cs.iter()).all(|(x, &c)| x.eq(&Int::from_i64(c)))
}

#[test]
fn coefficients_are_centered() {
    let p = center_coefficients(&poly(&[7, -7, 3, 1]), &Int::from_i64(5));
    assert!(has(&p, &[2, -2, -2, 1]));
    let q = center_coefficients(&poly(&[1, 5]), &Int::from_i64(5));
    assert!(has(&q, &[1]));
}

#[test]
fn factors_that_divide_are_split_off() {
    let f = poly(&[6, 11, 6, 1]);
    let factors = Vec1::try_from_vec(vec![poly(&[1, 1]), poly(&[2, 1]), poly(&[3, 1])]).unwrap();
    let out = reconstruct_factors(f, factors, &Int::from_i64(101));
    assert_eq!(out.len(), 3);
    assert!(has(&out[0], &[3, 1]));
    assert!(has(&out[1], &[2, 1]));
    assert!(has(&out[2], &[1, 1]));
}

#[test]
fn an_irreducible_polynomial_is_kept_whole() {
    let f = poly(&[1, 0, 1]);
    let factors = Vec1::try_from_vec(vec![poly(&[2, 1]), poly(&[3, 1])]).unwrap();
    let out = reconstruct_factors(f, factors, &Int::from_i64(5));
    assert_eq!(out.len(), 1);
    assert!(has(&out[0], &[1, 0, 1]));
}

#[test]
fn recombined_factors_multiply_back() {
    let f = poly(&[-2, 0, -1, 0, 1]);
    let factors = Vec1::try_from_vec(vec![poly(&[1, 0, 1]), poly(&[-2, 0, 1])]).unwrap();
    let out = reconstruct_factors(poly(&[-2, 0, -1, 0, 1]), factors, &Int::from_i64(7));
    let mut prod = BigIntPoly::one();
    for p in out.iter() {
        prod = prod.mul(p.duplicate());
    }
    assert!(has(&prod, &[-2, 0, -1, 0, 1]));
    assert!(has(&f, &[-2, 0, -1, 0, 1]));
}

#[test]
fn factor_lists_recombine_from_a_vec() {
    let f = poly(&[6, 11, 6, 1]);
    let factors = vec![poly(&[1, 1]), poly(&[2, 1]), poly(&[3, 1])];
    let out = reconstruct_factor_list(f, factors, &Int::from_i64(101));
    assert_eq!(out.len(), 3);
    assert!(has(&out[0], &[3, 1]));
    assert!(has(&out[1], &[2, 1]));
    assert!(has(&out[2], &[1, 1]));
}

#[test]
fn the_smallest_dividing_selection_is_split_off_last() {
    // (x + 1)(x^2 + 1): the single factor x + 1 divides, so it comes last
    let f = poly(&[1, 1, 1, 1]);
    let factors = vec![poly(&[1, 1]), poly(&[2, 1]), poly(&[3, 1])];
    let out = reconstruct_factor_list(f, factors, &Int::from_i64(5));
    assert_eq!(out.len(), 2);
    assert!(has(&out[1], &[1, 1]));
    assert!(has(&out[0], &[1, 0, 1]));
}
