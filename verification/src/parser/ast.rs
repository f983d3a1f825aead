//! Syntax trees of polynomial (in)equalities.
use vstd::prelude::*;
use vstd::string::StringExecFns;

verus! {

/// A comparison between the two sides of a constraint.
#[derive(Clone, Copy, PartialEq, Eq, Structural, Debug)]
pub enum RelOp {
    Eq,
    Neq,
    Lt,
    Gt,
    Leq,
    Geq,
}

/// The symbol of a comparison.
pub open spec fn relop_symbol(op: RelOp) -> Seq<char> {
    match op {
        RelOp::Eq => seq!['='],
        RelOp::Neq => seq!['!', '='],
        RelOp::Lt => seq!['<'],
        RelOp::Gt => seq!['>'],
        RelOp::Leq => seq!['<', '='],
        RelOp::Geq => seq!['>', '='],
    }
}

impl RelOp {
    /// The symbol of the comparison, as text.
    pub fn to_string(&self) -> (r: String)
        ensures
            r@ == relop_symbol(*self),
    {
        let s = match self {
            RelOp::Eq => "=",
            RelOp::Neq => "!=",
            RelOp::Lt => "<",
            RelOp::Gt => ">",
            RelOp::Leq => "<=",
            RelOp::Geq => ">=",
        };
        proof {
            reveal_strlit("=");
            reveal_strlit("!=");
            reveal_strlit("<");
            reveal_strlit(">");
            reveal_strlit("<=");
            reveal_strlit(">=");
        }
        String::from_str(s)
    }
}

/// An arithmetic expression over integer constants and named variables.
#[derive(Debug, PartialEq, Eq)]
pub enum Expr {
    Num(i64),
    Var(String),
    Add(Box<Expr>, Box<Expr>),
    Sub(Box<Expr>, Box<Expr>),
    Mul(Box<Expr>, Box<Expr>),
    Pow(Box<Expr>, usize),
    Neg(Box<Expr>),
}

/// A constraint `left op right`.
#[derive(Debug, PartialEq, Eq)]
pub struct Inequality {
    left: Expr,
    op: RelOp,
    right: Expr,
}

impl Inequality {
    /// Builds the constraint `left op right`.
    pub fn new(left: Expr, op: RelOp, right: Expr) -> (r: Inequality)
        ensures
            r.left() == left,
            r.op() == op,
            r.right() == right,
    {
        Inequality { left, op, right }
    }

    pub closed spec fn left(&self) -> Expr {
        self.left
    }

    pub closed spec fn op(&self) -> RelOp {
        self.op
    }

    pub closed spec fn right(&self) -> Expr {
        self.right
    }

    pub fn get_left(&self) -> (r: &Expr)
        ensures
            *r == self.left(),
    {
        &self.left
    }

    pub fn get_op(&self) -> (r: RelOp)
        ensures
            r == self.op(),
    {
        self.op
    }

    pub fn get_right(&self) -> (r: &Expr)
        ensures
            *r == self.right(),
    {
        &self.right
    }
}

} // verus!
