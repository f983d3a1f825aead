//! Exact polynomial algebra over big rationals: multivariate and univariate
//! polynomials, Gröbner bases, Sturm sequences, integer polynomials and
//! arithmetic modulo primes for factoring, and the graph and constraint
//! generators built on them.

pub mod nonempty;
pub mod number;
pub mod polynomial;
pub mod prime;
pub mod polyfactor;
pub mod modpoly;
pub mod big_int_poly;
pub mod factor_combination;
pub mod parser;
pub mod cad;
pub mod graph;
pub mod coordinate;
pub mod linear_algebra;
pub mod groebner;
pub mod langley;
