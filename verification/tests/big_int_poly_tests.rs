use cad_solver::big_int_poly::{primepoly_to_bigintpoly, uni_poly_derivative, uni_poly_div, uni_poly_division, uni_poly_remainder, BigIntPoly};
use cad_solver::number::{Int, Rat};
use cad_solver::polyfactor::{bigintpoly_to_univariate, demonicize, demonicize_to_univariate, ints_to_univariate, monicize};
use cad_solver::modpoly::{from_fields, PrimeModPoly};
use cad_solver::prime::PrimeField;
use vec1::Vec1;

fn ints(cs: &[i64]) -> Vec1<Int> {
    Vec1::try_from_vec(cs.iter().map(|&c| Int::from_i64(c)).collect()).unwrap()
}

fn poly(cs: &[i64]) -> BigIntPoly {
    BigIntPoly::new(ints(cs))
}

fn same(xs: &[Int], cs: &[i64]) -> bool {
    xs.len() == cs.len() && xs.iter().zip(cs.iter()).all(|(x, &c)| x.eq(&Int::from_i64(c)))
}

fn has(p: &BigIntPoly, cs: &[i64]) -> bool {
    same(p.iter(), cs)
}

fn rats(p: &cad_solver::cad::univariate::UnivariatePolynomial, cs: &[(i64, i64)]) -> bool {
    let xs = p.iter();
    xs.len() == cs.len()
        && xs.iter().zip(cs.iter()).all(|(x, &(n, d))| {
            let y = Rat::new(&Int::from_i64(n), &Int::from_i64(d));
            x.numer().eq(&y.numer()) && x.denom().eq(&y.denom())
        })
}

#[test]
fn integer_poly_trailing_zeros_are_removed() {
    let p = poly(&[1, 2, 0, 0]);
    assert!(has(&p, &[1, 2]));
    assert_eq!(p.degree(), 1);
    assert!(poly(&[0, 0]).is_zero());
    assert!(!p.is_zero());
    assert!(poly(&[1, 0]).is_one());
    assert!(!poly(&[1, 1]).is_one());
    assert!(BigIntPoly::zero().is_zero());
    assert!(BigIntPoly::one().is_one());
}

#[test]
fn sums_and_differences() {
    assert!(has(&poly(&[1, 2, 3]).add(poly(&[-1, -2, -3])), &[0]));
    assert!(has(&poly(&[1, 2]).add(poly(&[3])), &[4, 2]));
    assert!(has(&poly(&[1, 2, 3]).sub(poly(&[1, 2])), &[0, 0, 3]));
    assert!(has(&poly(&[1, -2, 5]).neg(), &[-1, 2, -5]));
}

#[test]
fn products() {
    assert!(has(&poly(&[1, 1]).mul(poly(&[-1, 1])), &[-1, 0, 1]));
    assert!(has(&poly(&[1, 2]).mul(poly(&[0])), &[0, 0]));
    assert!(has(&poly(&[1, 2, 3]).mul_constant(&Int::from_i64(2)), &[2, 4, 6]));
    assert!(has(&poly(&[1, 2]).mul_constant(&Int::from_i64(0)), &[0, 0]));
}

#[test]
fn remainders_by_an_integer() {
    assert!(has(&poly(&[7, -7, 5]).mod_integer(&Int::from_i64(3)), &[1, -1, 2]));
}

#[test]
fn derivatives() {
    assert!(has(&uni_poly_derivative(&poly(&[5, 3, 2])), &[3, 4]));
    assert!(has(&uni_poly_derivative(&poly(&[7])), &[0]));
}

#[test]
fn division_by_a_monic_polynomial() {
    let f = poly(&[-1, 0, 0, 1]);
    let g = poly(&[-1, 1]);
    assert!(has(&uni_poly_division(&f, &g).unwrap(), &[1, 1, 1]));
    assert!(has(&uni_poly_div(&f, &g).unwrap(), &[1, 1, 1]));
    assert!(has(&uni_poly_remainder(&f, &g).unwrap(), &[0]));

    let f = poly(&[5, 3, 1]);
    let g = poly(&[1, 1]);
    assert!(has(&uni_poly_division(&f, &g).unwrap(), &[2, 1]));
    assert!(has(&uni_poly_remainder(&f, &g).unwrap(), &[3]));
    assert!(has(&poly(&[5, 3, 1]).div(poly(&[1, 1])), &[2, 1]));
    assert!(has(&poly(&[5, 3, 1]).rem(poly(&[1, 1])), &[3]));
}

#[test]
fn division_by_a_smaller_degree_or_a_unit() {
    let f = poly(&[4, 1]);
    let g = poly(&[0, 0, 1]);
    assert!(has(&uni_poly_division(&f, &g).unwrap(), &[0]));
    assert!(has(&uni_poly_remainder(&f, &g).unwrap(), &[4, 1]));
    let one = BigIntPoly::one();
    assert!(has(&uni_poly_division(&f, &one).unwrap(), &[4, 1]));
    assert!(has(&uni_poly_remainder(&f, &one).unwrap(), &[0]));
}

#[test]
fn division_needs_a_monic_divisor() {
    let f = poly(&[5, 3, 1]);
    let g = poly(&[1, 2]);
    assert!(uni_poly_division(&f, &g).is_none());
    assert!(uni_poly_div(&f, &g).is_none());
    assert!(uni_poly_remainder(&f, &g).is_none());
}

#[test]
fn dividing_a_product_gives_the_factor_back() {
    let a = poly(&[1, 0, 1]);
    let g = poly(&[-3, 1]);
    let p = poly(&[1, 0, 1]).mul(poly(&[-3, 1]));
    assert!(has(&uni_poly_division(&p, &g).unwrap(), &[1, 0, 1]));
    assert!(has(&uni_poly_remainder(&p, &g).unwrap(), &[0]));
    assert!(has(&a, &[1, 0, 1]));
}

#[test]
fn quotient_and_remainder_fit_together() {
    let f = poly(&[7, -2, 0, 3, 1]);
    let g = poly(&[2, -1, 1]);
    let q = uni_poly_division(&f, &g).unwrap();
    let r = uni_poly_remainder(&f, &g).unwrap();
    let back = q.mul(poly(&[2, -1, 1])).add(r);
    assert!(has(&back, &[7, -2, 0, 3, 1]));
}

#[test]
fn demonicize_undoes_monicize_up_to_a_power() {
    let coeffs = vec![Int::from_i64(2), Int::from_i64(3), Int::from_i64(4)];
    let (m, lead) = monicize(&coeffs);
    let mp = BigIntPoly::new(Vec1::try_from_vec(m).unwrap());
    let back = demonicize(&mp, &lead);
    assert!(same(back.as_slice(), &[8, 12, 16]));
}

#[test]
fn integer_coefficients_become_monic_rationals() {
    let u = bigintpoly_to_univariate(&ints(&[3, 6, 4]));
    assert!(rats(&u, &[(3, 4), (3, 2), (1, 1)]));
    let d = demonicize_to_univariate(&poly(&[1, 1]), &Int::from_i64(2));
    assert!(rats(&d, &[(1, 2), (1, 1)]));
}

#[test]
fn residues_become_integers() {
    let v: Vec<PrimeField> = [3usize, 0, 6, 0].iter().map(|&c| PrimeField::new(c, 7)).collect();
    let p = PrimeModPoly::new(Vec1::try_from_vec(v).unwrap(), 7);
    assert!(has(&primepoly_to_bigintpoly(&p), &[3, 0, 6]));
}

#[test]
fn integer_slices_become_monic_rationals() {
    let cs: Vec<Int> = [3i64, 6, 4].iter().map(|&c| Int::from_i64(c)).collect();
    let u = ints_to_univariate(&cs);
    assert!(rats(&u, &[(3, 4), (3, 2), (1, 1)]));
}

#[test]
fn residues_from_a_vec_lose_trailing_zeros() {
    let v: Vec<PrimeField> = [3usize, 0, 6, 0].iter().map(|&c| PrimeField::new(c, 7)).collect();
    let p = from_fields(v, 7);
    assert_eq!(p.degree(), 2);
    assert!(has(&primepoly_to_bigintpoly(&p), &[3, 0, 6]));
}
