//! Polynomials seen as polynomials in their first variable, and constant
//! polynomials.
use crate::cad::univariate::UnivariatePolynomial;
use crate::nonempty::rat_values;
use crate::number::{Q, Rat};
use crate::polynomial::{seq_to_map, zero_exp, zeros, Exponent, Polynomial};
use vstd::prelude::*;

verus! {

/// The constant polynomial `c` in `n` variables.
pub open spec fn constant_map(n: nat, c: Q) -> Map<Seq<u32>, Q> {
    if c.n == 0 {
        Map::empty()
    } else {
        map![zero_exp(n) => c]
    }
}

/// The constant polynomial `constant` in `num_vars` variables.
pub fn generate_constant_polynomial(num_vars: usize, constant: &Rat) -> (r: Polynomial)
    ensures
        r@ == constant_map(num_vars as nat, constant@),
{
    let mut p = Polynomial::zero();
    p.add_term(Exponent::new(zeros(num_vars)), constant.duplicate());
    assert(p@ =~= constant_map(num_vars as nat, constant@));
    p
}

/// The coefficients of a polynomial in one variable as constant polynomials
/// in `num_vars` variables.
pub fn univariate_to_coefficients(poly: &UnivariatePolynomial, num_vars: usize) -> (r: Vec<Polynomial>)
    ensures
        r@.len() == poly@.len(),
        forall|i: int| 0 <= i < r@.len() ==> (#[trigger] r@[i])@ == constant_map(num_vars as nat, poly@[i]),
{
    let cs = poly.iter();
    let mut out: Vec<Polynomial> = Vec::new();
    let mut i: usize = 0;
    while i < cs.len()
        invariant
            rat_values(cs@) == poly@,
            i <= cs@.len(),
            out@.len() == i,
            forall|j: int| 0 <= j < i ==> (#[trigger] out@[j])@ == constant_map(num_vars as nat, poly@[j]),
        decreases cs@.len() - i,
    {
        assert(poly@[i as int] == cs@[i as int]@);
        out.push(generate_constant_polynomial(num_vars, &cs[i]));
        i = i + 1;
    }
    out
}

/// The coefficient of `v^d` in `m`, `v` its first variable: the terms whose
/// exponent starts with `d`, that entry removed.
pub open spec fn first_var_coeff(m: Map<Seq<u32>, Q>, d: u32) -> Map<Seq<u32>, Q> {
    Map::new(|r: Seq<u32>| m.contains_key(seq![d] + r), |r: Seq<u32>| m[seq![d] + r])
}

/// Some exponent of `m` is empty (the polynomial has no variable).
pub open spec fn has_empty_exp(m: Map<Seq<u32>, Q>) -> bool {
    exists|k: Seq<u32>| #[trigger] m.contains_key(k) && k.len() == 0
}

/// Each term as its exponent of the first variable, the rest of its exponent
/// and its coefficient, in the order in which they are stored; `None` when
/// an exponent is empty.
pub fn collect_terms(poly: &Polynomial) -> (r: Option<Vec<(u32, Exponent, Rat)>>)
    ensures
        r is None <==> exists|i: int| 0 <= i < poly.term_seq().len() && (#[trigger] poly.term_seq()[i]).0.len() == 0,
        r matches Some(v) ==> v@.len() == poly.term_seq().len() && forall|i: int|
            0 <= i < v@.len() ==> (#[trigger] v@[i]).0 == poly.term_seq()[i].0.first() && v@[i].1@
                == poly.term_seq()[i].0.skip(1) && v@[i].2@ == poly.term_seq()[i].1,
{
    let terms = poly.raw_iter();
    let ghost ts = poly.term_seq();
    let mut out: Vec<(u32, Exponent, Rat)> = Vec::new();
    let mut i: usize = 0;
    while i < terms.len()
        invariant
            crate::polynomial::terms_view(terms@) == ts,
            ts == poly.term_seq(),
            i <= terms@.len(),
            out@.len() == i,
            forall|j: int| 0 <= j < i ==> (#[trigger] ts[j]).0.len() != 0,
            forall|j: int|
                0 <= j < i ==> (#[trigger] out@[j]).0 == ts[j].0.first() && out@[j].1@ == ts[j].0.skip(1) && out@[j].2@
                    == ts[j].1,
        decreases terms@.len() - i,
    {
        assert(ts[i as int] == crate::polynomial::term_view(terms@[i as int]));
        match terms[i].0.split_first() {
            Some((last, rest)) => {
                out.push((last, rest, terms[i].1.duplicate()));
            },
            None => {
                return None;
            },
        }
        i = i + 1;
    }
    Some(out)
}

proof fn lemma_empty_exp_terms(p: Polynomial)
    requires
        p.well_formed(),
    ensures
        has_empty_exp(p@) <==> exists|i: int| 0 <= i < p.term_seq().len() && (#[trigger] p.term_seq()[i]).0.len() == 0,
{
    let ts = p.term_seq();
    crate::polynomial::lemma_seq_to_map(ts);
    if has_empty_exp(p@) {
        let k = choose|k: Seq<u32>| #[trigger] p@.contains_key(k) && k.len() == 0;
        let i = choose|i: int| 0 <= i < ts.len() && ts[i].0 == k;
        assert(ts[i].0.len() == 0);
    }
    if exists|i: int| 0 <= i < ts.len() && (#[trigger] ts[i]).0.len() == 0 {
        let i = choose|i: int| 0 <= i < ts.len() && (#[trigger] ts[i]).0.len() == 0;
        assert(p@.contains_key(ts[i].0));
    }
}

proof fn lemma_first_var_coeff_insert(m: Map<Seq<u32>, Q>, k: Seq<u32>, v: Q, d: u32)
    requires
        k.len() > 0,
        !m.contains_key(k),
    ensures
        k.first() == d ==> first_var_coeff(m.insert(k, v), d) == first_var_coeff(m, d).insert(k.skip(1), v),
        k.first() == d ==> !first_var_coeff(m, d).contains_key(k.skip(1)),
        k.first() != d ==> first_var_coeff(m.insert(k, v), d) == first_var_coeff(m, d),
{
    assert(seq![k.first()] + k.skip(1) =~= k);
    if k.first() == d {
        assert forall|r: Seq<u32>| #[trigger] first_var_coeff(m.insert(k, v), d).contains_key(r) <==> first_var_coeff(m, d).insert(
            k.skip(1),
            v,
        ).contains_key(r) by {
            if seq![d] + r == k {
                assert(r =~= k.skip(1)) by {
                    assert((seq![d] + r).skip(1) =~= r);
                }
            }
        }
        assert(first_var_coeff(m.insert(k, v), d) =~= first_var_coeff(m, d).insert(k.skip(1), v));
    } else {
        assert forall|r: Seq<u32>| #[trigger] first_var_coeff(m.insert(k, v), d).contains_key(r) <==> first_var_coeff(m, d).contains_key(r) by {
            if seq![d] + r == k {
                assert((seq![d] + r)[0] == d);
            }
        }
        assert(first_var_coeff(m.insert(k, v), d) =~= first_var_coeff(m, d));
    }
}

/// The coefficients of `poly` as a polynomial in its first variable: entry `d`
/// is the coefficient of `v^d`, up to the greatest power present. `None` for
/// the zero polynomial or when an exponent is empty.
pub fn collect_first_variable_coefficients(poly: &Polynomial) -> (r: Option<Vec<Polynomial>>)
    requires
        forall|k: Seq<u32>| #[trigger] poly@.contains_key(k) && k.len() > 0 ==> k.first() < u32::MAX,
    ensures
        r is None <==> poly@ == Map::<Seq<u32>, Q>::empty() || has_empty_exp(poly@),
        r matches Some(cs) ==> {
            &&& cs@.len() >= 1
            &&& forall|k: Seq<u32>| #[trigger] poly@.contains_key(k) ==> k.first() < cs@.len()
            &&& exists|k: Seq<u32>| #[trigger] poly@.contains_key(k) && k.first() == cs@.len() - 1
            &&& forall|d: int| 0 <= d < cs@.len() ==> (#[trigger] cs@[d])@ == first_var_coeff(poly@, d as u32)
        },
{
    proof {
        use_type_invariant(poly);
        lemma_empty_exp_terms(*poly);
        crate::polynomial::lemma_seq_to_map(poly.term_seq());
    }
    let ghost ts = poly.term_seq();
    let terms = match collect_terms(poly) {
        Some(t) => t,
        None => {
            return None;
        },
    };
    if terms.len() == 0 {
        assert(poly@ =~= Map::<Seq<u32>, Q>::empty());
        return None;
    }
    proof {
        if poly@ == Map::<Seq<u32>, Q>::empty() {
            assert(poly@.contains_key(ts[0].0));
        }
        assert(!has_empty_exp(poly@));
    }
    let mut max_degree: u32 = terms[0].0;
    let mut i: usize = 1;
    while i < terms.len()
        invariant
            1 <= i <= terms@.len() == ts.len(),
            exists|j: int| 0 <= j < i && terms@[j].0 == max_degree,
            forall|j: int| 0 <= j < i ==> #[trigger] terms@[j].0 <= max_degree,
        decreases terms@.len() - i,
    {
        if terms[i].0 > max_degree {
            max_degree = terms[i].0;
        }
        i = i + 1;
    }
    proof {
        let j = choose|j: int| 0 <= j < ts.len() && terms@[j].0 == max_degree;
        assert(terms@[j].0 == ts[j].0.first());
        assert(poly@.contains_key(ts[j].0));
        assert(ts[j].0.len() != 0) by {
            if ts[j].0.len() == 0 {
                assert(has_empty_exp(poly@));
            }
        }
    }
    let len = max_degree as usize + 1;
    let mut coeffs: Vec<Polynomial> = Vec::new();
    let mut t: usize = 0;
    while t < len
        invariant
            t <= len,
            coeffs@.len() == t,
            forall|d: int| 0 <= d < t ==> (#[trigger] coeffs@[d])@ == Map::<Seq<u32>, Q>::empty(),
        decreases len - t,
    {
        coeffs.push(Polynomial::zero());
        t = t + 1;
    }
    proof {
        assert forall|d: int| 0 <= d < len implies (#[trigger] coeffs@[d])@ == first_var_coeff(seq_to_map(ts.subrange(0, 0)), d as u32) by {
            assert(first_var_coeff(seq_to_map(ts.subrange(0, 0)), d as u32) =~= Map::<Seq<u32>, Q>::empty());
        }
    }
    let mut i: usize = 0;
    while i < terms.len()
        invariant
            i <= terms@.len() == ts.len(),
            ts == poly.term_seq(),
            crate::polynomial::distinct_keys(ts),
            crate::polynomial::nonzero_values(ts),
            coeffs@.len() == len,
            len == max_degree + 1,
            forall|j: int| 0 <= j < terms@.len() ==> #[trigger] terms@[j].0 <= max_degree,
            forall|j: int|
                0 <= j < terms@.len() ==> (#[trigger] terms@[j]).0 == ts[j].0.first() && terms@[j].1@ == ts[j].0.skip(1)
                    && terms@[j].2@ == ts[j].1,
            forall|j: int| 0 <= j < ts.len() ==> (#[trigger] ts[j]).0.len() != 0,
            forall|d: int| 0 <= d < len ==> (#[trigger] coeffs@[d])@ == first_var_coeff(seq_to_map(ts.subrange(0, i as int)), d as u32),
        decreases terms@.len() - i,
    {
        let last = terms[i].0;
        let index = last as usize;
        let ghost prefix = ts.subrange(0, i as int);
        let ghost k = ts[i as int].0;
        proof {
            assert(ts.subrange(0, i + 1).drop_last() =~= prefix);
            assert(ts.subrange(0, i + 1).last() == ts[i as int]);
            crate::polynomial::lemma_seq_to_map(prefix);
            if seq_to_map(prefix).contains_key(k) {
                let j = choose|j: int| 0 <= j < prefix.len() && prefix[j].0 == k;
                assert(ts[j].0 == ts[i as int].0);
            }
        }
        let mut c = coeffs[index].duplicate();
        c.add_term(terms[i].1.duplicate(), terms[i].2.duplicate());
        let ghost before = coeffs@;
        coeffs.set(index, c);
        proof {
            assert(k.len() != 0);
            assert(terms@[i as int].0 == k.first());
            assert(terms@[i as int].1@ == k.skip(1));
            assert(ts[i as int].1.n != 0);
            assert(seq_to_map(ts.subrange(0, i + 1)) == seq_to_map(prefix).insert(k, ts[i as int].1));
            assert forall|d: int| 0 <= d < len implies (#[trigger] coeffs@[d])@ == first_var_coeff(
                seq_to_map(ts.subrange(0, i + 1)),
                d as u32,
            ) by {
                lemma_first_var_coeff_insert(seq_to_map(prefix), k, ts[i as int].1, d as u32);
                if d != index {
                    assert(coeffs@[d] == before[d]);
                } else {
                    assert(before[d]@ == first_var_coeff(seq_to_map(prefix), d as u32));
                    assert(coeffs@[d]@ =~= first_var_coeff(seq_to_map(prefix), d as u32).insert(k.skip(1), ts[i as int].1));
                }
            }
        }
        i = i + 1;
    }
    proof {
        assert(ts.subrange(0, ts.len() as int) =~= ts);
        assert forall|k: Seq<u32>| #[trigger] poly@.contains_key(k) implies k.first() < len by {
            let j = choose|j: int| 0 <= j < ts.len() && ts[j].0 == k;
            assert(terms@[j].0 <= max_degree);
        }
    }
    Some(coeffs)
}

} // verus!
