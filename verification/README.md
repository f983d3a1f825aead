# cad_solver

A verified library of exact polynomial algebra, written in Verus. Every
function in `src/` carries a contract that Verus proves; the few calls into
outside crates (`num`, `vec1`, `itertools`, `rand`) stand behind small trusted
wrappers whose contracts are stated in their doc comments.

Layout:

- `number` — big integers and rationals (`Int`, `Rat`) modelled as `int` and
  reduced fractions `Q`.
- `polynomial` — multivariate polynomials as maps from exponent lists to
  coefficients, with a term order.
- `parser` — expressions and inequalities turned into polynomials.
- `groebner` — division, S-polynomials and reduced Gröbner bases that meet
  Buchberger's criterion.
- `cad` — univariate polynomials, Sturm sequences, root isolation and
  refinement, Mahler bounds, sign tests at sample points, projection helpers,
  polynomials in a single variable and their factors, and determinants of
  rational and polynomial matrices.
- `prime`, `modpoly` — residues modulo a prime and polynomials over them.
- `big_int_poly`, `polyfactor`, `factor_combination` — integer polynomials,
  division by monic polynomials, the monic transform, and recombination of
  factors found modulo a prime power.
- `graph`, `coordinate`, `linear_algebra`, `langley` — graphs of unit-length
  bars and the polynomial systems that place them, random linear systems, and
  the constraints of Langley's problem.

`app/main.rs` is a small driver that prints examples. `tests/` holds the tests.
