//! Non-empty vectors of the `vec1` crate, holding rationals, integers,
//! integer polynomials or residues modulo a prime.
use crate::big_int_poly::BigIntPoly;
use crate::number::{Int, Q, Rat};
use crate::polyfactor::int_values;
use crate::prime::PrimeField;
use vec1::Vec1;
use vstd::prelude::*;

verus! {

/// The `vec1` crate's non-empty vector.
#[verifier::external_type_specification]
#[verifier::external_body]
#[verifier::reject_recursive_types(T)]
pub struct ExVec1<T>(Vec1<T>);

/// The values held by a non-empty vector of rationals, in order.
pub uninterp spec fn rat_vec1_values(v: Vec1<Rat>) -> Seq<Q>;

/// The values of a slice of rationals.
pub open spec fn rat_values(s: Seq<Rat>) -> Seq<Q> {
    s.map_values(|x: Rat| x@)
}

/// Wraps `Vec1::try_from_vec`: `None` exactly when `v` is empty, otherwise a
/// non-empty vector holding the same values in the same order.
#[verifier::external_body]
pub(crate) fn rat_vec1_from_vec(v: Vec<Rat>) -> (r: Option<Vec1<Rat>>)
    ensures
        r is None <==> v@.len() == 0,
        r matches Some(x) ==> rat_vec1_values(x) == rat_values(v@),
{
    Vec1::try_from_vec(v).ok()
}

/// Wraps `Vec1::as_slice`: the held values in order; there is at least one.
#[verifier::external_body]
pub(crate) fn rat_vec1_as_slice(v: &Vec1<Rat>) -> (r: &[Rat])
    ensures
        rat_values(r@) == rat_vec1_values(*v),
        r@.len() > 0,
{
    v.as_slice()
}

/// The residues held by a non-empty vector, in order.
pub uninterp spec fn field_vec1_elems(v: Vec1<PrimeField>) -> Seq<PrimeField>;

/// Wraps `Vec1::try_from_vec`: `None` exactly when `v` is empty, otherwise a
/// non-empty vector holding the same residues in the same order.
#[verifier::external_body]
pub(crate) fn field_vec1_from_vec(v: Vec<PrimeField>) -> (r: Option<Vec1<PrimeField>>)
    ensures
        r is None <==> v@.len() == 0,
        r matches Some(x) ==> field_vec1_elems(x) == v@,
{
    Vec1::try_from_vec(v).ok()
}

/// Wraps `Vec1::as_slice`: the held residues in order; there is at least one.
#[verifier::external_body]
pub(crate) fn field_vec1_as_slice(v: &Vec1<PrimeField>) -> (r: &[PrimeField])
    ensures
        r@ == field_vec1_elems(*v),
        r@.len() > 0,
{
    v.as_slice()
}

/// The values held by a non-empty vector of integers, in order.
pub uninterp spec fn int_vec1_values(v: Vec1<Int>) -> Seq<int>;

/// Wraps `Vec1::try_from_vec`: `None` exactly when `v` is empty, otherwise a
/// non-empty vector holding the same integers in the same order.
#[verifier::external_body]
pub(crate) fn int_vec1_from_vec(v: Vec<Int>) -> (r: Option<Vec1<Int>>)
    ensures
        r is None <==> v@.len() == 0,
        r matches Some(x) ==> int_vec1_values(x) == int_values(v@),
{
    Vec1::try_from_vec(v).ok()
}

/// Wraps `Vec1::as_slice`: the held integers in order; there is at least one.
#[verifier::external_body]
pub(crate) fn int_vec1_as_slice(v: &Vec1<Int>) -> (r: &[Int])
    ensures
        int_values(r@) == int_vec1_values(*v),
        r@.len() > 0,
{
    v.as_slice()
}

/// The coefficient lists of a list of integer polynomials.
pub open spec fn poly_views(s: Seq<BigIntPoly>) -> Seq<Seq<int>> {
    s.map_values(|p: BigIntPoly| p@)
}

/// The coefficient lists of the polynomials held by a non-empty vector, in
/// order.
pub uninterp spec fn poly_vec1_views(v: Vec1<BigIntPoly>) -> Seq<Seq<int>>;

/// Wraps `Vec1::try_from_vec`: `None` exactly when `v` is empty, otherwise a
/// non-empty vector holding the same polynomials in the same order.
#[verifier::external_body]
pub(crate) fn poly_vec1_from_vec(v: Vec<BigIntPoly>) -> (r: Option<Vec1<BigIntPoly>>)
    ensures
        r is None <==> v@.len() == 0,
        r matches Some(x) ==> poly_vec1_views(x) == poly_views(v@),
{
    Vec1::try_from_vec(v).ok()
}

/// Wraps `Vec1::into_vec`: the held polynomials in order; there is at least
/// one.
#[verifier::external_body]
pub(crate) fn poly_vec1_into_vec(v: Vec1<BigIntPoly>) -> (r: Vec<BigIntPoly>)
    ensures
        poly_views(r@) == poly_vec1_views(v),
        r@.len() > 0,
{
    v.into_vec()
}

} // verus!
