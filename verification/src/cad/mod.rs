//! Cylindrical algebraic decomposition: univariate polynomials, real root
//! isolation, sign evaluation at algebraic sample points, and the
//! determinants used by the projection step.

pub mod binary_search;
pub mod factor;
pub mod interval;
pub mod judge;
pub mod mahler;
pub mod polynomial_matrix;
pub mod proj;
pub mod rational_matrix;
pub mod specialize;
pub mod matrix;
pub mod sturm;
pub mod univariate;
