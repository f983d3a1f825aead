use cad_solver::modpoly::{mod_poly_derivative, PrimeModPoly};
use cad_solver::number::Rat;
use cad_solver::polynomial::{Exponent, Polynomial};
use cad_solver::prime::PrimeField;
use vec1::Vec1;

fn mod_poly(cs: &[usize], p: usize) -> PrimeModPoly {
    let v: Vec<PrimeField> = cs.iter().map(|&c| PrimeField::new(c, p)).collect();
    PrimeModPoly::new(Vec1::try_from_vec(v).unwrap(), p)
}

fn values(p: &PrimeModPoly) -> Vec<usize> {
    p.iter().iter().map(|c| c.get_value()).collect()
}

#[test]
fn trailing_zeros_are_removed() {
    let p = mod_poly(&[1, 5, 10], 5);
    assert_eq!(values(&p), vec![1]);
    assert_eq!(p.degree(), 0);
    assert!(!p.is_zero());
    assert!(mod_poly(&[0, 0], 7).is_zero());
    assert_eq!(p.get_prime(), 5);
    assert_eq!(mod_poly(&[3, 0, 4], 7).lt().get_value(), 4);
}

#[test]
fn constants_add_and_multiply() {
    let p = mod_poly(&[3, 1, 2], 5);
    assert_eq!(values(&p.add_const(&PrimeField::new(4, 5))), vec![2, 1, 2]);
    assert_eq!(values(&p.mul_const(&PrimeField::new(3, 5))), vec![4, 3, 1]);
    assert_eq!(values(&p.mul_const(&PrimeField::new(0, 5))), vec![0]);
}

#[test]
fn derivatives_modulo_a_prime() {
    // 5x^3 + 1 has derivative 15x^2 = 0 modulo 5
    assert_eq!(values(&mod_poly_derivative(&mod_poly(&[1, 0, 0, 5], 5))), vec![0]);
    // x^2 + 3 has derivative 2x modulo 5
    assert_eq!(values(&mod_poly_derivative(&mod_poly(&[3, 0, 1], 5))), vec![0, 2]);
    assert_eq!(values(&mod_poly_derivative(&mod_poly(&[4], 5))), vec![0]);
}

#[test]
fn subtraction_undoes_addition_in_the_field() {
    for a in 0..7 {
        for b in 0..7 {
            let x = PrimeField::new(a, 7).add(PrimeField::new(b, 7)).sub(PrimeField::new(b, 7));
            assert_eq!(x.get_value(), a);
        }
    }
}

#[test]
fn exponent_subtraction_undoes_addition() {
    let a = Exponent::new(vec![2, 0, 5]);
    let b = Exponent::new(vec![1, 3, 0]);
    let back = a.add(&b).sub(&b).unwrap();
    assert!(back.equals(&a));
    // lcm(a, b) - a is b with a cancelled
    let l = a.lcm(&b);
    assert!(l.sub(&a).unwrap().equals(&b.saturated_sub(&a)));
}

#[test]
fn negation_undoes_itself() {
    let mut p = Polynomial::zero();
    p.add_term(Exponent::new(vec![1, 0]), Rat::from_i64(3));
    p.add_term(Exponent::new(vec![0, 2]), Rat::from_i64(-5));
    assert!(p.neg().neg().equals(&p));
    assert!(!p.neg().equals(&p));
}
