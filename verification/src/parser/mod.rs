//! Polynomial constraints written as text: their syntax trees and their
//! translation into polynomials.

pub mod ast;
pub mod gen_poly;
