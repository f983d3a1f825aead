use cad_solver::number::Rat;
use cad_solver::parser::ast::{Expr, Inequality, RelOp};
use cad_solver::parser::gen_poly::{
    ast_to_polynomial, ast_to_polynomial_using_map, extract_variables, extract_variables_from_inequality,
    ineq_to_polynomial_using_map, GenError,
};
use cad_solver::polynomial::{Exponent, Polynomial};

fn var(name: &str) -> Expr {
    Expr::Var(name.to_string())
}

fn num(k: i64) -> Expr {
    Expr::Num(k)
}

fn add(a: Expr, b: Expr) -> Expr {
    Expr::Add(Box::new(a), Box::new(b))
}

fn sub(a: Expr, b: Expr) -> Expr {
    Expr::Sub(Box::new(a), Box::new(b))
}

fn mul(a: Expr, b: Expr) -> Expr {
    Expr::Mul(Box::new(a), Box::new(b))
}

fn pow(a: Expr, k: usize) -> Expr {
    Expr::Pow(Box::new(a), k)
}

fn neg(a: Expr) -> Expr {
    Expr::Neg(Box::new(a))
}

fn poly(terms: &[(&[u32], i64)]) -> Polynomial {
    let mut p = Polynomial::zero();
    for (e, c) in terms {
        p.add_term(Exponent::new(e.to_vec()), Rat::from_i64(*c));
    }
    p
}

#[test]
fn variables_are_sorted_and_unique() {
    let e = add(mul(var("y"), var("x")), pow(var("y"), 3));
    let vs = extract_variables(&e);
    assert_eq!(vs, vec!["x".to_string(), "y".to_string()]);
    let ineq = Inequality::new(var("z"), RelOp::Lt, add(var("a"), var("z")));
    let vs = extract_variables_from_inequality(&ineq);
    assert_eq!(vs, vec!["z".to_string(), "a".to_string(), "z".to_string()]);
}

#[test]
fn expression_to_polynomial() {
    // -(x^2 + 1)^3 + 42 over the single variable x
    let e = add(neg(pow(add(pow(var("x"), 2), num(1)), 3)), num(42));
    let vars = vec!["x".to_string()];
    let p = ast_to_polynomial_using_map(&e, &vars).unwrap();
    let expected = poly(&[(&[6], -1), (&[4], -3), (&[2], -3), (&[0], 41)]);
    assert!(p.equals(&expected));
}

#[test]
fn zeroth_power_is_one_and_products_expand() {
    let vars = vec!["x".to_string(), "y".to_string()];
    let p = ast_to_polynomial_using_map(&pow(var("y"), 0), &vars).unwrap();
    assert!(p.equals(&poly(&[(&[0, 0], 1)])));
    let p = ast_to_polynomial_using_map(&mul(sub(var("x"), var("y")), add(var("x"), var("y"))), &vars).unwrap();
    assert!(p.equals(&poly(&[(&[2, 0], 1), (&[0, 2], -1)])));
}

#[test]
fn undefined_variable_is_an_error() {
    let vars = vec!["x".to_string()];
    let e = add(var("x"), mul(var("q"), var("r")));
    match ast_to_polynomial_using_map(&e, &vars) {
        Err(GenError::UndefinedVariable(name)) => assert_eq!(name, "q"),
        Ok(_) => panic!("expected an error"),
    }
    let ineq = Inequality::new(var("x"), RelOp::Eq, var("w"));
    assert_eq!(ineq_to_polynomial_using_map(&ineq, &vars).err(), Some(GenError::UndefinedVariable("w".to_string())));
}

#[test]
fn constraints_to_polynomials() {
    // x*y = 2 and y >= x - 1, over the variables x < y
    let c1 = Inequality::new(mul(var("x"), var("y")), RelOp::Eq, num(2));
    let c2 = Inequality::new(var("y"), RelOp::Geq, sub(var("x"), num(1)));
    let out = ast_to_polynomial(&[c1, c2]).unwrap();
    assert_eq!(out.len(), 2);
    assert!(out[0].0.equals(&poly(&[(&[1, 1], 1), (&[0, 0], -2)])));
    assert_eq!(out[0].1, RelOp::Eq);
    assert!(out[1].0.equals(&poly(&[(&[0, 1], 1), (&[1, 0], -1), (&[0, 0], 1)])));
    assert_eq!(out[1].1, RelOp::Geq);
}

#[test]
fn comparison_symbols() {
    assert_eq!(RelOp::Leq.to_string(), "<=");
    assert_eq!(RelOp::Neq.to_string(), "!=");
}
