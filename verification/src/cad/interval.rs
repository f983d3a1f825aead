//! Interval bounds on the value of a polynomial at a sample point.
use crate::cad::mahler::{
    get_signed_range, mul_const_model, mul_constant_range, mul_model, mul_ranges, pow_model, pow_range, range_model,
    root_signed_range, signed_within_limit, RangeModel, SignedRange,
};
use crate::cad::sturm::{roots_view, Root, RootView};
use crate::number::{qadd, qint, qsub, Q, Rat};
use crate::polynomial::{terms_view, Polynomial};
use vstd::prelude::*;

verus! {

/// The signed range of `x^e` over the first `j` variables, multiplied from the left.
pub open spec fn monomial_range(e: Seq<u32>, ranges: Seq<RangeModel>, j: nat) -> RangeModel
    decreases j,
{
    if j == 0 {
        RangeModel::Exact(qint(1))
    } else {
        mul_model(monomial_range(e, ranges, (j - 1) as nat), pow_model(ranges[j - 1], e[j - 1] as nat))
    }
}

/// The bounds after adding a term with signed range `m`.
pub open spec fn add_range(b: (Q, Q), m: RangeModel) -> (Q, Q) {
    match m {
        RangeModel::Exact(r) => (qadd(b.0, r), qadd(b.1, r)),
        RangeModel::Interval(p, lo, hi) => if p {
            (qadd(b.0, lo), qadd(b.1, hi))
        } else {
            (qsub(b.0, hi), qsub(b.1, lo))
        },
    }
}

/// Lower and upper bounds on the sum of the first `k` terms.
pub open spec fn sum_bounds(ts: Seq<(Seq<u32>, Q)>, ranges: Seq<RangeModel>, k: nat) -> (Q, Q)
    decreases k,
{
    if k == 0 {
        (qint(0), qint(0))
    } else {
        let e = ts[k - 1].0;
        let j = if e.len() <= ranges.len() { e.len() } else { ranges.len() };
        add_range(sum_bounds(ts, ranges, (k - 1) as nat), mul_const_model(monomial_range(e, ranges, j), ts[k - 1].1))
    }
}

/// Lower and upper bounds on the value of `poly` at the sample point, from
/// the signed ranges of its coordinates; `None` when the sign of a
/// coordinate is not fixed within `u64::MAX` bisection steps.
pub fn evaluate_polynomial_at_signed_range(poly: &Polynomial, sample: &[Root]) -> (r: Option<(Rat, Rat)>)
    ensures
        r is Some <==> forall|i: int| 0 <= i < sample@.len() ==> signed_within_limit(#[trigger] roots_view(sample@)[i]),
        r matches Some(b) ==> exists|ranges: Seq<RangeModel>|
            #[trigger] ranges.len() == sample@.len() && (forall|i: int|
                0 <= i < sample@.len() ==> root_signed_range(roots_view(sample@)[i], #[trigger] ranges[i])) && (b.0@, b.1@)
                == sum_bounds(poly.term_seq(), ranges, poly.term_seq().len()),
{
    let ghost rv = roots_view(sample@);
    let mut sample_ranges: Vec<SignedRange> = Vec::new();
    let ghost mut ranges: Seq<RangeModel> = Seq::empty();
    let mut i: usize = 0;
    while i < sample.len()
        invariant
            i <= sample@.len(),
            rv == roots_view(sample@),
            ranges.len() == i,
            sample_ranges@.len() == i,
            forall|q: int| 0 <= q < i ==> root_signed_range(rv[q], #[trigger] ranges[q]),
            forall|q: int| 0 <= q < i ==> range_model(#[trigger] sample_ranges@[q]) == ranges[q],
            forall|q: int| 0 <= q < i ==> signed_within_limit(#[trigger] rv[q]),
        decreases sample@.len() - i,
    {
        assert(rv[i as int] == sample@[i as int]@);
        let range = match get_signed_range(&sample[i]) {
            None => {
                assert(!signed_within_limit(rv[i as int]));
                return None;
            },
            Some(x) => x,
        };
        let ghost rm = range_model(range);
        let ghost prev = sample_ranges@;
        sample_ranges.push(range);
        proof {
            let old_ranges = ranges;
            ranges = ranges.push(rm);
            assert forall|q: int| 0 <= q < i + 1 implies range_model(#[trigger] sample_ranges@[q]) == ranges[q] by {
                if q < i {
                    assert(sample_ranges@[q] == prev[q]);
                    assert(ranges[q] == old_ranges[q]);
                }
            }
            assert forall|q: int| 0 <= q < i + 1 implies root_signed_range(rv[q], #[trigger] ranges[q]) by {
                if q < i {
                    assert(ranges[q] == old_ranges[q]);
                }
            }
        }
        i = i + 1;
    }
    let terms = poly.raw_iter();
    let ghost ts = poly.term_seq();
    let mut lower = Rat::from_i64(0);
    let mut upper = Rat::from_i64(0);
    let mut k: usize = 0;
    while k < terms.len()
        invariant
            k <= terms@.len(),
            ts == poly.term_seq(),
            terms_view(terms@) == ts,
            sample_ranges@.len() == ranges.len(),
            forall|q: int| 0 <= q < ranges.len() ==> range_model(#[trigger] sample_ranges@[q]) == ranges[q],
            (lower@, upper@) == sum_bounds(ts, ranges, k as nat),
        decreases terms@.len() - k,
    {
        let e = terms[k].0.as_slice();
        let c = &terms[k].1;
        assert(ts[k as int] == (e@, c@));
        let z = if e.len() <= sample_ranges.len() { e.len() } else { sample_ranges.len() };
        let mut product = SignedRange::Exact(Rat::from_i64(1));
        let mut j: usize = 0;
        while j < z
            invariant
                z <= e@.len(),
                z <= ranges.len(),
                sample_ranges@.len() == ranges.len(),
                forall|q: int| 0 <= q < ranges.len() ==> range_model(#[trigger] sample_ranges@[q]) == ranges[q],
                j <= z,
                range_model(product) == monomial_range(e@, ranges, j as nat),
            decreases z - j,
        {
            assert(range_model(sample_ranges@[j as int]) == ranges[j as int]);
            let p = pow_range(&sample_ranges[j], e[j]);
            product = mul_ranges(&product, &p);
            j = j + 1;
        }
        let term_value = mul_constant_range(&product, c);
        match term_value {
            SignedRange::Exact(r) => {
                upper = upper.add(&r);
                lower = lower.add(&r);
            },
            SignedRange::Interval(interval) => {
                if interval.is_positive() {
                    upper = upper.add(interval.get_upper());
                    lower = lower.add(interval.get_lower());
                } else {
                    upper = upper.sub(interval.get_lower());
                    lower = lower.sub(interval.get_upper());
                }
            },
        }
        k = k + 1;
    }
    Some((lower, upper))
}

} // verus!
