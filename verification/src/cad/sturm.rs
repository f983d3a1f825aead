//! Real roots of univariate polynomials: isolating intervals, Sturm chains
//! and sign-change counts.
use crate::cad::univariate::{
    seq_derivative, seq_neg, spec_quotient, spec_remainder, uni_poly_derivative, uni_poly_div, uni_poly_remainder,
    clean_seq, lemma_clean_seq, rem_step, horner, seq_scale, UnivariatePolynomial,
};
use crate::nonempty::rat_values;
use crate::cad::binary_search::{lemma_midpoint_between, midpoint};
use crate::number::{lemma_qmul_nonzero, qdiv, qint, qlt, qneg, rat_text, Q, Rat};
use vstd::arithmetic::power2::{lemma_pow2_unfold, pow2};
use vstd::prelude::*;
use vstd::string::StringExecFns;

verus! {

/// Where a root lies: exactly at a rational, or in the interval `(lower, upper]`.
pub enum Range {
    Exact(Rat),
    Interval(Rat, Rat),
}

/// The value of a `Range`.
pub enum RootRange {
    Exact(Q),
    Interval(Q, Q),
}

pub open spec fn range_view(r: Range) -> RootRange {
    match r {
        Range::Exact(x) => RootRange::Exact(x@),
        Range::Interval(l, u) => RootRange::Interval(l@, u@),
    }
}

/// The value of a `Root`: its defining polynomial and where the root lies.
pub struct RootView {
    pub poly: Seq<Q>,
    pub range: RootRange,
}

/// A real root of a monic polynomial of positive degree: a linear polynomial
/// has its root given exactly, a higher one by an isolating interval.
pub struct Root {
    poly: UnivariatePolynomial,
    range: Range,
}

impl View for Root {
    type V = RootView;

    closed spec fn view(&self) -> RootView {
        RootView { poly: self.poly@, range: range_view(self.range) }
    }
}

/// The shape every root has.
pub open spec fn root_shape(v: RootView) -> bool {
    &&& v.poly.len() >= 2
    &&& v.poly.last() == qint(1)
    &&& (v.poly.len() == 2) == (v.range is Exact)
    &&& v.range matches RootRange::Interval(l, u) ==> qlt(l, u)
    &&& range_denominators(v.range)
}

/// The bounds have positive denominators.
pub open spec fn range_denominators(r: RootRange) -> bool {
    match r {
        RootRange::Exact(x) => x.d > 0,
        RootRange::Interval(l, u) => l.d > 0 && u.d > 0,
    }
}

impl Root {
    #[verifier::type_invariant]
    pub open spec fn well_shaped(self) -> bool {
        root_shape(self@)
    }

    /// The root of the monic polynomial `poly` of positive degree: for a
    /// linear polynomial its exact value, otherwise the one in
    /// `(lower_bound, upper_bound]`, which must be a non-empty interval.
    pub fn new(poly: UnivariatePolynomial, lower_bound: Rat, upper_bound: Rat) -> (r: Root)
        requires
            poly@.last() == qint(1),
            poly@.len() >= 2,
            poly@.len() > 2 ==> qlt(lower_bound@, upper_bound@),
        ensures
            r@.poly == poly@,
            poly@.len() == 2 ==> r@.range == RootRange::Exact(qdiv(qneg(poly@[0]), poly@[1])),
            poly@.len() > 2 ==> r@.range == RootRange::Interval(lower_bound@, upper_bound@),
    {
        if poly.degree() == 1 {
            let coeffs = poly.iter();
            assert(coeffs@[1]@ == poly@[1]);
            assert(coeffs@[0]@ == poly@[0]);
            let root = coeffs[0].neg().div(&coeffs[1]);
            proof {
                use_type_invariant(&root);
            }
            Root { poly, range: Range::Exact(root) }
        } else {
            proof {
                use_type_invariant(&lower_bound);
                use_type_invariant(&upper_bound);
            }
            Root { poly, range: Range::Interval(lower_bound, upper_bound) }
        }
    }

    /// The rational `r` as the root of `x - r`.
    pub fn new_rational(r: Rat) -> (res: Root)
        ensures
            res@.poly == seq![qneg(r@), qint(1)],
            res@.range == RootRange::Exact(r@),
    {
        let mut v: Vec<Rat> = Vec::new();
        v.push(r.neg());
        v.push(Rat::from_i64(1));
        proof {
            assert(rat_values(v@) =~= seq![qneg(r@), qint(1)]);
            assert(clean_seq(seq![qneg(r@), qint(1)]) == seq![qneg(r@), qint(1)]);
        }
        let poly = UnivariatePolynomial::from_coeffs(v);
        proof {
            use_type_invariant(&r);
        }
        Root { poly, range: Range::Exact(r) }
    }

    /// A copy of this root.
    pub fn duplicate(&self) -> (r: Root)
        ensures
            r@ == self@,
    {
        proof {
            use_type_invariant(self);
        }
        let range = match &self.range {
            Range::Exact(x) => Range::Exact(x.duplicate()),
            Range::Interval(l, u) => Range::Interval(l.duplicate(), u.duplicate()),
        };
        Root { poly: self.poly.duplicate(), range }
    }

    /// Both roots have the same polynomial and either the same exact value
    /// or overlapping intervals.
    pub fn is_same_root(&self, other: &Root) -> (r: bool)
        ensures
            r == same_root(self@, other@),
    {
        if !poly_eq(&self.poly, &other.poly) {
            false
        } else {
            match (&self.range, &other.range) {
                (Range::Exact(r1), Range::Exact(r2)) => r1.eq(r2),
                (Range::Interval(l1, u1), Range::Interval(l2, u2)) => l1.lt(u2) && l2.lt(u1),
                _ => false,
            }
        }
    }

    /// Where the root lies.
    pub fn get_range(&self) -> (r: &Range)
        ensures
            range_view(*r) == self@.range,
    {
        &self.range
    }

    /// The defining polynomial.
    pub fn get_poly(&self) -> (r: &UnivariatePolynomial)
        ensures
            r@ == self@.poly,
            r@.len() >= 2,
            r@.last() == qint(1),
    {
        proof {
            use_type_invariant(self);
        }
        &self.poly
    }

    /// The isolating interval, if the root is not exact.
    pub fn get_interval(&self) -> (r: Option<(Rat, Rat)>)
        ensures
            r is None <==> self@.range is Exact,
            r matches Some(p) ==> self@.range == RootRange::Interval(p.0@, p.1@) && qlt(p.0@, p.1@),
    {
        proof {
            use_type_invariant(self);
        }
        match &self.range {
            Range::Exact(_) => None,
            Range::Interval(l, u) => Some((l.duplicate(), u.duplicate())),
        }
    }

    /// The exact value, or the lower end of the interval.
    pub fn get_lower_bound(&self) -> (r: Rat)
        ensures
            r@ == lower_bound(self@.range),
    {
        match &self.range {
            Range::Exact(x) => x.duplicate(),
            Range::Interval(l, _) => l.duplicate(),
        }
    }

    /// The exact value, or the upper end of the interval.
    pub fn get_upper_bound(&self) -> (r: Rat)
        ensures
            r@ == upper_bound(self@.range),
    {
        match &self.range {
            Range::Exact(x) => x.duplicate(),
            Range::Interval(_, u) => u.duplicate(),
        }
    }
}

/// The exact value, or the lower end.
pub open spec fn lower_bound(r: RootRange) -> Q {
    match r {
        RootRange::Exact(x) => x,
        RootRange::Interval(l, _) => l,
    }
}

/// The exact value, or the upper end.
pub open spec fn upper_bound(r: RootRange) -> Q {
    match r {
        RootRange::Exact(x) => x,
        RootRange::Interval(_, u) => u,
    }
}

/// Two roots are taken to be the same: equal polynomials, and equal exact
/// values or overlapping intervals.
pub open spec fn same_root(a: RootView, b: RootView) -> bool {
    a.poly == b.poly && match (a.range, b.range) {
        (RootRange::Exact(x), RootRange::Exact(y)) => x == y,
        (RootRange::Interval(l1, u1), RootRange::Interval(l2, u2)) => qlt(l1, u2) && qlt(l2, u1),
        _ => false,
    }
}

/// The two polynomials have the same coefficients.
fn poly_eq(a: &UnivariatePolynomial, b: &UnivariatePolynomial) -> (r: bool)
    ensures
        r == (a@ == b@),
{
    let x = a.iter();
    let y = b.iter();
    if x.len() != y.len() {
        assert(rat_values(x@).len() == x@.len());
        assert(rat_values(y@).len() == y@.len());
        return false;
    }
    let mut i: usize = 0;
    while i < x.len()
        invariant
            rat_values(x@) == a@,
            rat_values(y@) == b@,
            x@.len() == y@.len(),
            i <= x@.len(),
            forall|j: int| 0 <= j < i ==> a@[j] == b@[j],
        decreases x@.len() - i,
    {
        assert(a@[i as int] == x@[i as int]@);
        assert(b@[i as int] == y@[i as int]@);
        if !x[i].eq(&y[i]) {
            return false;
        }
        i = i + 1;
    }
    assert(a@ =~= b@);
    true
}

/// No trailing zero coefficient, unless the polynomial is a constant.
pub open spec fn is_clean(s: Seq<Q>) -> bool {
    s.len() > 0 && (s.len() > 1 ==> s.last().n != 0)
}

/// Every coefficient is zero.
pub open spec fn all_zero(s: Seq<Q>) -> bool {
    forall|i: int| 0 <= i < s.len() ==> s[i].n == 0
}

/// A remainder is shorter than a non-constant divisor, and clean when the dividend is.
pub proof fn lemma_remainder(f: Seq<Q>, g: Seq<Q>)
    requires
        f.len() > 0,
        g.len() > 0,
    ensures
        spec_remainder(f, g) matches Some(r) ==> r.len() > 0 && (g.len() > 1 ==> r.len() < g.len()) && (is_clean(f)
            ==> is_clean(r)),
    decreases f.len(),
{
    if g.len() > 1 && f.len() >= g.len() {
        let st = rem_step(f, g);
        assert(st.last() == qint(0));
        lemma_clean_seq(st);
        lemma_remainder(clean_seq(st), g);
    }
}

/// The Sturm chain continues after `f, g`: the remainder exists and is not zero.
pub open spec fn continues(f: Seq<Q>, g: Seq<Q>) -> bool {
    spec_remainder(f, g) matches Some(r) && !all_zero(r)
}

/// `c` follows `a, b` in a Sturm chain: the remainder of `a` by `b` is
/// defined and non-zero, and `c` is its negation.
#[verifier::opaque]
pub open spec fn chain_step(a: Seq<Q>, b: Seq<Q>, c: Seq<Q>) -> bool {
    continues(a, b) && c == seq_neg(spec_remainder(a, b)->0)
}

/// `s` begins the chain of `p`: `p`, its derivative, then the negated
/// remainders of each pair, each of them non-zero.
pub open spec fn chain_prefix(p: Seq<Q>, s: Seq<Seq<Q>>) -> bool {
    &&& s.len() >= 2
    &&& s[0] == p
    &&& s[1] == seq_derivative(p)
    &&& forall|k: int| 2 <= k < s.len() ==> chain_step(s[k - 2], s[k - 1], #[trigger] s[k])
}

/// `s` is the chain of `p`, continued up to the first pair whose remainder
/// is zero or undefined.
pub open spec fn is_sturm_chain(p: Seq<Q>, s: Seq<Seq<Q>>) -> bool {
    &&& chain_prefix(p, s)
    &&& !continues(s[s.len() - 2], s[s.len() - 1])
}

proof fn lemma_chain_extend(p: Seq<Q>, s: Seq<Seq<Q>>, r: Seq<Q>)
    requires
        chain_prefix(p, s),
        spec_remainder(s[s.len() - 2], s[s.len() - 1]) == Some(r),
        !all_zero(r),
    ensures
        chain_prefix(p, s.push(seq_neg(r))),
{
    let t = s.push(seq_neg(r));
    assert(chain_step(s[s.len() - 2], s[s.len() - 1], seq_neg(r))) by {
        reveal(chain_step);
    }
    assert forall|k: int| 2 <= k < t.len() implies chain_step(t[k - 2], t[k - 1], #[trigger] t[k]) by {
        if k < s.len() {
            assert(t[k] == s[k]);
            assert(t[k - 1] == s[k - 1]);
            assert(t[k - 2] == s[k - 2]);
        }
    }
}

/// The values of a list of polynomials.
pub open spec fn polys_view(s: Seq<UnivariatePolynomial>) -> Seq<Seq<Q>> {
    s.map_values(|p: UnivariatePolynomial| p@)
}

/// The Sturm chain of a polynomial without trailing zero coefficients.
fn eulers_algorithm(poly: &UnivariatePolynomial) -> (r: Vec<UnivariatePolynomial>)
    requires
        is_clean(poly@),
    ensures
        is_sturm_chain(poly@, polys_view(r@)),
        forall|k: int| 1 <= k < r@.len() ==> is_clean(#[trigger] polys_view(r@)[k]),
        poly@.len() > 1 ==> forall|k: int| 1 <= k < r@.len() ==> !all_zero(#[trigger] polys_view(r@)[k]),
{
    let d = uni_poly_derivative(poly);
    proof {
        use_type_invariant(poly);
    }
    if poly.degree() > 0 {
        let lc = poly.leading_coeff();
        proof {
            use_type_invariant(&lc);
            let n = poly@.len();
            assert(d@.last() == crate::number::qmul(poly@[n - 1], qint(n - 1)));
            lemma_qmul_nonzero(poly@[n - 1], qint(n - 1));
        }
    }
    let mut chain: Vec<UnivariatePolynomial> = Vec::new();
    chain.push(poly.duplicate());
    chain.push(d.duplicate());
    let mut f = poly.duplicate();
    let mut g = d;
    let ghost mut views = polys_view(chain@);
    proof {
        assert(is_clean(g@));
        assert(chain_prefix(poly@, views));
        if poly@.len() > 1 {
            assert(d@[d@.len() - 1].n != 0);
        }
    }
    loop
        invariant_except_break
            views == polys_view(chain@),
            chain_prefix(poly@, views),
            views[views.len() - 2] == f@,
            views[views.len() - 1] == g@,
            is_clean(f@),
            is_clean(g@),
            forall|k: int| 1 <= k < views.len() ==> is_clean(#[trigger] views[k]),
            poly@.len() > 1 ==> forall|k: int| 1 <= k < views.len() ==> !all_zero(#[trigger] views[k]),
        ensures
            is_sturm_chain(poly@, polys_view(chain@)),
            forall|k: int| 1 <= k < polys_view(chain@).len() ==> is_clean(#[trigger] polys_view(chain@)[k]),
            poly@.len() > 1 ==> forall|k: int| 1 <= k < polys_view(chain@).len() ==> !all_zero(#[trigger] polys_view(chain@)[k]),
        decreases g@.len(),
    {
        proof {
            lemma_remainder(f@, g@);
        }
        let rem = uni_poly_remainder(&f, &g);
        match rem {
            Some(r) => {
                if r.is_zero() {
                    break;
                }
                let nr = r.neg();
                let ghost prev = chain@;
                chain.push(nr.duplicate());
                proof {
                    lemma_chain_extend(poly@, views, r@);
                    let ghost old_views = views;
                    views = views.push(nr@);
                    assert(!all_zero(nr@)) by {
                        let i = choose|i: int| 0 <= i < r@.len() && r@[i].n != 0;
                        assert(nr@[i].n != 0);
                    }
                    assert forall|k: int| 1 <= k < views.len() implies is_clean(#[trigger] views[k]) by {
                        if k < old_views.len() {
                            assert(views[k] == old_views[k]);
                        }
                    }
                    assert forall|k: int| poly@.len() > 1 && 1 <= k < views.len() implies !all_zero(#[trigger] views[k]) by {
                        if k < old_views.len() {
                            assert(views[k] == old_views[k]);
                        }
                    }
                    assert(polys_view(chain@) =~= polys_view(prev).push(nr@));
                    if g@.len() <= 1 {
                        assert(r@ == seq![qint(0)]);
                        assert(r@[0].n == 0);
                    }
                    assert(is_clean(seq_neg(r@)));
                }
                f = g;
                g = nr;
            },
            None => {
                break;
            },
        }
    }
    chain
}

/// A polynomial divided by its highest coefficient, unchanged if that is zero.
pub open spec fn monic_of(p: Seq<Q>) -> Seq<Q> {
    if p.last().n == 0 {
        p
    } else {
        seq_scale(p, qdiv(qint(1), p.last()))
    }
}

/// Division by a polynomial with a non-zero highest coefficient has a quotient.
pub proof fn lemma_quotient_some(f: Seq<Q>, g: Seq<Q>)
    requires
        f.len() > 0,
        g.len() > 0,
        g.last().n != 0,
    ensures
        spec_quotient(f, g) is Some,
    decreases f.len(),
{
    if f.len() > g.len() {
        lemma_quotient_some(crate::cad::univariate::div_step(f, g), g);
    }
}

/// The square-free part: for degree two or more, the polynomial divided by
/// the last entry of its Sturm chain (a greatest common divisor with its
/// derivative), made monic.
pub fn square_free_part(poly: &UnivariatePolynomial) -> (r: UnivariatePolynomial)
    requires
        poly@.len() > 2 ==> is_clean(poly@),
    ensures
        poly@.len() <= 2 ==> r@ == poly@,
        poly@.len() > 2 ==> exists|s: Seq<Seq<Q>>|
            #[trigger] is_sturm_chain(poly@, s) && spec_quotient(poly@, s.last()) is Some && r@ == monic_of(
                spec_quotient(poly@, s.last())->0,
            ),
{
    if poly.degree() <= 1 {
        poly.duplicate()
    } else {
        let chain = eulers_algorithm(poly);
        let last = &chain[chain.len() - 1];
        proof {
            let v = polys_view(chain@);
            assert(v[v.len() - 1] == last@);
            assert(is_clean(last@));
            assert(!all_zero(last@));
            if last@.len() == 1 {
                let i = choose|i: int| 0 <= i < last@.len() && last@[i].n != 0;
            }
            assert(last@.last().n != 0);
            use_type_invariant(poly);
            use_type_invariant(last);
            lemma_quotient_some(poly@, last@);
        }
        let q = uni_poly_div(poly, last).unwrap();
        let r = q.monic();
        proof {
            assert(polys_view(chain@).last() == last@);
            assert(is_sturm_chain(poly@, polys_view(chain@)));
        }
        r
    }
}

/// The sign of a rational: 1, -1 or 0.
pub open spec fn qsign(q: Q) -> int {
    if q.n > 0 {
        1
    } else if q.n < 0 {
        -1
    } else {
        0
    }
}

/// Sign changes in `vals` (zeros skipped), `prev` being the last non-zero
/// sign before them (0 for none).
pub open spec fn changes_after(vals: Seq<Q>, prev: int) -> nat
    decreases vals.len(),
{
    if vals.len() == 0 {
        0
    } else {
        let s = qsign(vals[0]);
        if s == 0 {
            changes_after(vals.drop_first(), prev)
        } else {
            (if prev != 0 && prev != s {
                1nat
            } else {
                0nat
            }) + changes_after(vals.drop_first(), s)
        }
    }
}

/// Sign changes in a sequence of values, zeros skipped.
pub open spec fn sign_changes(vals: Seq<Q>) -> nat {
    changes_after(vals, 0)
}

/// The values of the polynomials `s` at `x`.
pub open spec fn values_at(s: Seq<Seq<Q>>, x: Q) -> Seq<Q> {
    s.map_values(|p: Seq<Q>| horner(p, x))
}

/// The highest coefficients of `s`, negated at odd positions when looking
/// towards negative infinity.
pub open spec fn leading_signs(s: Seq<Seq<Q>>, positive: bool) -> Seq<Q> {
    Seq::new(s.len(), |k: int| if !positive && k % 2 == 1 { qneg(s[k].last()) } else { s[k].last() })
}

proof fn lemma_changes_bound(vals: Seq<Q>, prev: int)
    ensures
        changes_after(vals, prev) <= vals.len(),
    decreases vals.len(),
{
    if vals.len() > 0 {
        lemma_changes_bound(vals.drop_first(), prev);
        lemma_changes_bound(vals.drop_first(), qsign(vals[0]));
    }
}

/// Counts the sign changes in `vals`, zeros skipped.
fn count_changes(vals: &Vec<Rat>) -> (r: usize)
    ensures
        r == sign_changes(rat_values(vals@)),
{
    let ghost vs = rat_values(vals@);
    let n = vals.len();
    let mut count: usize = 0;
    let mut prev: i8 = 0;
    let mut i: usize = 0;
    proof {
        assert(vs.subrange(0, n as int) =~= vs);
    }
    while i < n
        invariant
            n == vals@.len() == vs.len(),
            vs == rat_values(vals@),
            i <= n,
            count <= i,
            prev == 0 || prev == 1 || prev == -1,
            count + changes_after(vs.subrange(i as int, n as int), prev as int) == changes_after(vs, 0),
        decreases n - i,
    {
        let ghost rest = vs.subrange(i as int, n as int);
        proof {
            assert(rest.drop_first() =~= vs.subrange(i + 1, n as int));
            assert(rest[0] == vals@[i as int]@);
        }
        let s: i8 = if vals[i].is_positive() {
            1
        } else if vals[i].is_negative() {
            -1
        } else {
            0
        };
        if s != 0 {
            if prev != 0 && prev != s {
                count = count + 1;
            }
            prev = s;
        }
        i = i + 1;
    }
    count
}

/// The number of sign changes of the chain `sequence` at `value`.
fn count_sign_changes(sequence: &[UnivariatePolynomial], value: &Rat) -> (r: usize)
    ensures
        r == sign_changes(values_at(polys_view(sequence@), value@)),
{
    let mut vals: Vec<Rat> = Vec::new();
    let mut i: usize = 0;
    while i < sequence.len()
        invariant
            i <= sequence@.len(),
            rat_values(vals@) == values_at(polys_view(sequence@), value@).subrange(0, i as int),
        decreases sequence@.len() - i,
    {
        let x = sequence[i].substitute(value);
        let ghost prev = vals@;
        vals.push(x);
        proof {
            assert(rat_values(vals@) =~= rat_values(prev).push(x@));
            assert(rat_values(vals@) =~= values_at(polys_view(sequence@), value@).subrange(0, i + 1));
        }
        i = i + 1;
    }
    proof {
        assert(values_at(polys_view(sequence@), value@).subrange(0, sequence@.len() as int) =~= values_at(
            polys_view(sequence@),
            value@,
        ));
    }
    count_changes(&vals)
}

/// The number of sign changes of the chain towards positive or negative
/// infinity, read from the highest coefficients.
fn count_sign_changes_at_infinity(sequence: &[UnivariatePolynomial], is_positive_infinity: bool) -> (r: usize)
    requires
        forall|k: int| 0 <= k < sequence@.len() ==> (#[trigger] polys_view(sequence@)[k]).last().n != 0,
    ensures
        r == sign_changes(leading_signs(polys_view(sequence@), is_positive_infinity)),
{
    let ghost target = leading_signs(polys_view(sequence@), is_positive_infinity);
    let mut vals: Vec<Rat> = Vec::new();
    let mut reversed = false;
    let mut i: usize = 0;
    while i < sequence.len()
        invariant
            i <= sequence@.len(),
            target == leading_signs(polys_view(sequence@), is_positive_infinity),
            reversed == (!is_positive_infinity && i % 2 == 1),
            rat_values(vals@) == target.subrange(0, i as int),
        decreases sequence@.len() - i,
    {
        let lc = sequence[i].leading_coeff();
        let x = if reversed { lc.neg() } else { lc };
        let ghost prev = vals@;
        vals.push(x);
        proof {
            assert(polys_view(sequence@)[i as int] == sequence@[i as int]@);
            assert(rat_values(vals@) =~= rat_values(prev).push(x@));
            assert(rat_values(vals@) =~= target.subrange(0, i + 1));
        }
        if !is_positive_infinity {
            reversed = !reversed;
        }
        i = i + 1;
    }
    proof {
        assert(target.subrange(0, sequence@.len() as int) =~= target);
    }
    count_changes(&vals)
}

/// The number of real roots counted by the chain: the sign changes towards
/// negative infinity minus those towards positive infinity.
fn count_real_roots(sequence: &[UnivariatePolynomial]) -> (r: usize)
    requires
        forall|k: int| 0 <= k < sequence@.len() ==> (#[trigger] polys_view(sequence@)[k]).last().n != 0,
        sign_changes(leading_signs(polys_view(sequence@), false)) >= sign_changes(
            leading_signs(polys_view(sequence@), true),
        ),
    ensures
        r == sign_changes(leading_signs(polys_view(sequence@), false)) - sign_changes(
            leading_signs(polys_view(sequence@), true),
        ),
{
    let pos = count_sign_changes_at_infinity(sequence, true);
    let neg = count_sign_changes_at_infinity(sequence, false);
    neg - pos
}

/// The number of roots in `(low, high]` counted by the chain.
fn count_roots_in_range(sequence: &[UnivariatePolynomial], low: &Rat, high: &Rat) -> (r: usize)
    requires
        sign_changes(values_at(polys_view(sequence@), low@)) >= sign_changes(values_at(polys_view(sequence@), high@)),
    ensures
        r == sign_changes(values_at(polys_view(sequence@), low@)) - sign_changes(
            values_at(polys_view(sequence@), high@),
        ),
{
    let a = count_sign_changes(sequence, low);
    let b = count_sign_changes(sequence, high);
    a - b
}

/// Roots of `s` that the chain counts in `(-x, x]`, when it counts any.
pub open spec fn counted_in(s: Seq<Seq<Q>>, low: Q, high: Q) -> int {
    sign_changes(values_at(s, low)) - sign_changes(values_at(s, high))
}

/// The number of real roots that the chain counts: the sign changes towards
/// negative infinity minus those towards positive infinity.
pub open spec fn counted_total(s: Seq<Seq<Q>>) -> int {
    sign_changes(leading_signs(s, false)) - sign_changes(leading_signs(s, true))
}

/// The chain counts all its roots in `(-2^k, 2^k]`.
pub open spec fn holds_all_at(s: Seq<Seq<Q>>, k: nat) -> bool {
    counted_in(s, qneg(qint(pow2(k) as int)), qint(pow2(k) as int)) == counted_total(s)
}

proof fn lemma_double(x: int)
    requires
        x > 0,
    ensures
        crate::number::qmul(qint(x), qint(2)) == qint(2 * x),
{
    let n = x * 2;
    let d = 1int * 1int;
    assert(d == 1);
    assert(n == 2 * x);
    let a = crate::number::iabs(n);
    assert(a == n);
    assert(crate::number::iabs(d) == 1);
    assert(a % 1 == 0);
    assert(crate::number::gcd(1, 0) == 1);
    assert(crate::number::gcd(a, 1) == crate::number::gcd(1, a % 1));
    assert(crate::number::gcd(a, 1) == 1);
    assert(n / 1 == n);
    assert(d / 1 == 1);
}

/// The interval `(-2^k, 2^k]` for the least `k` below `u64::MAX` that holds
/// every real root the chain counts, with that number; `None` when the
/// counts at infinity are inconsistent or no such `k` is found.
fn range_of_roots(sequence: &Vec<UnivariatePolynomial>) -> (r: Option<(Rat, Rat, usize)>)
    requires
        forall|k: int| 0 <= k < sequence@.len() ==> (#[trigger] polys_view(sequence@)[k]).last().n != 0,
    ensures
        r is None <==> counted_total(polys_view(sequence@)) < 0 || forall|k: nat|
            k < u64::MAX ==> !#[trigger] holds_all_at(polys_view(sequence@), k),
        r matches Some(t) ==> t.0@ == qneg(t.1@) && t.2 == counted_total(polys_view(sequence@)) && counted_in(
            polys_view(sequence@),
            t.0@,
            t.1@,
        ) == t.2 && t.1@.n > 0 && exists|k: nat|
            k < u64::MAX && t.1@ == qint(pow2(k) as int) && #[trigger] holds_all_at(polys_view(sequence@), k) && forall|
                j: nat,
            | j < k ==> !#[trigger] holds_all_at(polys_view(sequence@), j),
{
    let ghost sv = polys_view(sequence@);
    let pos = count_sign_changes_at_infinity(sequence.as_slice(), true);
    let neg = count_sign_changes_at_infinity(sequence.as_slice(), false);
    if neg < pos {
        return None;
    }
    let number_of_real_roots = neg - pos;
    let mut abs = Rat::from_i64(1);
    let two = Rat::from_i64(2);
    let mut tries: u64 = 0;
    proof {
        vstd::arithmetic::power2::lemma2_to64();
    }
    while tries < u64::MAX
        invariant
            sv == polys_view(sequence@),
            abs@ == qint(pow2(tries as nat) as int),
            two@ == qint(2),
            number_of_real_roots == neg - pos,
            neg >= pos,
            pos == sign_changes(leading_signs(polys_view(sequence@), true)),
            neg == sign_changes(leading_signs(polys_view(sequence@), false)),
            forall|j: nat| j < tries ==> !#[trigger] holds_all_at(sv, j),
        decreases u64::MAX - tries,
    {
        proof {
            vstd::arithmetic::power2::lemma_pow2_pos(tries as nat);
        }
        let low = abs.neg();
        let a = count_sign_changes(sequence.as_slice(), &low);
        let b = count_sign_changes(sequence.as_slice(), &abs);
        if a >= b && a - b == number_of_real_roots {
            proof {
                assert(holds_all_at(sv, tries as nat));
            }
            return Some((low, abs, number_of_real_roots));
        }
        proof {
            assert(!holds_all_at(sv, tries as nat));
            lemma_double(pow2(tries as nat) as int);
            lemma_pow2_unfold((tries + 1) as nat);
        }
        abs = abs.mul(&two);
        tries = tries + 1;
    }
    None
}

/// A pending interval `(low, high]` and the number of roots the chain counts
/// in it.
pub type Pending = (Q, Q, int);

/// One step of isolating the roots counted by the chain `s`: the last
/// pending interval is taken; with one root it is found, otherwise it is
/// halved and each half that holds a root becomes pending (the lower half
/// first). `None` when the counts at its ends disagree (the chain counts
/// fewer sign changes at the lower end, or more roots in the lower half than
/// in the whole). Nothing pending: nothing changes.
pub open spec fn isolation_step(s: Seq<Seq<Q>>, st: (Seq<Pending>, Seq<(Q, Q)>)) -> Option<
    (Seq<Pending>, Seq<(Q, Q)>),
> {
    let cands = st.0;
    let found = st.1;
    if cands.len() == 0 {
        Some(st)
    } else {
        let (low, high, count) = cands.last();
        let rest = cands.drop_last();
        if count == 1 {
            Some((rest, found.push((low, high))))
        } else {
            let mid = midpoint(low, high);
            let a = sign_changes(values_at(s, low));
            let b = sign_changes(values_at(s, mid));
            if a < b || a - b > count {
                None
            } else {
                let lc = a - b;
                let hc = count - lc;
                let c1 = if lc > 0 {
                    rest.push((low, mid, lc))
                } else {
                    rest
                };
                let c2 = if hc > 0 {
                    c1.push((mid, high, hc))
                } else {
                    c1
                };
                Some((c2, found))
            }
        }
    }
}

/// The state of the isolation after `k` steps from `init`.
pub open spec fn isolation_iter(s: Seq<Seq<Q>>, init: (Seq<Pending>, Seq<(Q, Q)>), k: nat) -> Option<
    (Seq<Pending>, Seq<(Q, Q)>),
>
    decreases k,
{
    if k == 0 {
        Some(init)
    } else {
        match isolation_iter(s, init, (k - 1) as nat) {
            None => None,
            Some(st) => isolation_step(s, st),
        }
    }
}

/// The isolation from the single pending interval `(low, high]` with
/// `count` roots ends within `u64::MAX` steps with nothing pending, having
/// found the intervals `found`.
pub open spec fn isolates_to(s: Seq<Seq<Q>>, low: Q, high: Q, count: int, found: Seq<(Q, Q)>) -> bool {
    exists|k: nat|
        k <= u64::MAX && #[trigger] isolation_iter(s, (seq![(low, high, count)], Seq::empty()), k) == Some(
            (Seq::<Pending>::empty(), found),
        )
}

/// The sum of the counts of the pending intervals.
pub open spec fn pending_total(c: Seq<Pending>) -> int
    decreases c.len(),
{
    if c.len() == 0 {
        0
    } else {
        pending_total(c.drop_last()) + c.last().2
    }
}

/// The values of the pending intervals of the loop in `isolate_roots`.
pub open spec fn pending_view(v: Seq<(Rat, Rat, usize)>) -> Seq<Pending> {
    v.map_values(|t: (Rat, Rat, usize)| (t.0@, t.1@, t.2 as int))
}

/// The values of found intervals.
pub open spec fn intervals_view(v: Seq<(Rat, Rat)>) -> Seq<(Q, Q)> {
    v.map_values(|t: (Rat, Rat)| (t.0@, t.1@))
}

/// Every pending interval is proper, with the count that the chain gives it,
/// and every found interval is proper with one counted root.
pub open spec fn isolation_sound(s: Seq<Seq<Q>>, c: Seq<Pending>, f: Seq<(Q, Q)>) -> bool {
    &&& forall|i: int|
        0 <= i < c.len() ==> qlt((#[trigger] c[i]).0, c[i].1) && c[i].0.d > 0 && c[i].1.d > 0 && counted_in(
            s,
            c[i].0,
            c[i].1,
        ) == c[i].2 && c[i].2 >= 0
    &&& forall|i: int| 0 <= i < f.len() ==> qlt((#[trigger] f[i]).0, f[i].1) && counted_in(s, f[i].0, f[i].1) == 1
}

/// `k` is the least number below `u64::MAX` with every counted root in
/// `(-2^k, 2^k]`.
pub open spec fn first_hold(s: Seq<Seq<Q>>, k: nat) -> bool {
    k < u64::MAX && holds_all_at(s, k) && forall|j: nat| j < k ==> !#[trigger] holds_all_at(s, j)
}

/// The outcome of `isolate_roots` for the polynomial `f` with Sturm chain `s`.
pub open spec fn isolation_result(s: Seq<Seq<Q>>, f: Seq<Q>, r: Option<Vec<Root>>) -> bool {
    &&& r is None <==> counted_total(s) < 0 || !(exists|k: nat| #[trigger] first_hold(s, k)) || exists|k: nat|
        #[trigger] first_hold(s, k) && !exists|found: Seq<(Q, Q)>|
            #[trigger] isolates_to(s, qneg(qint(pow2(k) as int)), qint(pow2(k) as int), counted_total(s), found)
    &&& r matches Some(rs) ==> exists|k: nat, found: Seq<(Q, Q)>|
        #[trigger] first_hold(s, k) && #[trigger] isolates_to(
            s,
            qneg(qint(pow2(k) as int)),
            qint(pow2(k) as int),
            counted_total(s),
            found,
        ) && rs@.len() == found.len() && forall|i: int|
            0 <= i < rs@.len() ==> (#[trigger] rs@[i])@.poly == f && (f.len() > 2 ==> rs@[i]@.range
                == RootRange::Interval(found[i].0, found[i].1))
    &&& r matches Some(rs) ==> {
        &&& rs@.len() == counted_total(s)
        &&& f.len() > 2 ==> forall|i: int|
            0 <= i < rs@.len() ==> ((#[trigger] rs@[i])@.range matches RootRange::Interval(l, u) && qlt(l, u)
                && counted_in(s, l, u) == 1)
    }
}

proof fn lemma_first_hold_unique(s: Seq<Seq<Q>>, k1: nat, k2: nat)
    requires
        first_hold(s, k1),
        first_hold(s, k2),
    ensures
        k1 == k2,
{
    if k1 < k2 {
        assert(!holds_all_at(s, k1));
    }
    if k2 < k1 {
        assert(!holds_all_at(s, k2));
    }
}

proof fn lemma_isolation_stays(s: Seq<Seq<Q>>, init: (Seq<Pending>, Seq<(Q, Q)>), k: nat, m: nat)
    requires
        k <= m,
    ensures
        isolation_iter(s, init, k) is None ==> isolation_iter(s, init, m) is None,
        isolation_iter(s, init, k) matches Some(st) && st.0.len() == 0 ==> isolation_iter(s, init, m) == isolation_iter(
            s,
            init,
            k,
        ),
    decreases m - k,
{
    if k < m {
        lemma_isolation_stays(s, init, k, (m - 1) as nat);
    }
}

/// The intervals that the isolation from `(low, high]` with `total` roots
/// finds; `None` when it does not finish (`isolates_to`).
#[verifier::spinoff_prover]
#[verifier::rlimit(50)]
fn isolate_intervals(seq: &Vec<UnivariatePolynomial>, low: Rat, high: Rat, total: usize) -> (r: Option<Vec<(Rat, Rat)>>)
    requires
        qlt(low@, high@),
        counted_in(polys_view(seq@), low@, high@) == total,
    ensures
        r is None <==> !exists|found: Seq<(Q, Q)>|
            #[trigger] isolates_to(polys_view(seq@), low@, high@, total as int, found),
        r matches Some(f) ==> isolates_to(polys_view(seq@), low@, high@, total as int, intervals_view(f@))
            && isolation_sound(polys_view(seq@), Seq::empty(), intervals_view(f@)) && f@.len() == total,
{
    let ghost s = polys_view(seq@);
    let ghost init: (Seq<Pending>, Seq<(Q, Q)>) = (seq![(low@, high@, total as int)], Seq::empty());
    proof {
        use_type_invariant(&low);
        use_type_invariant(&high);
    }
    let mut cands: Vec<(Rat, Rat, usize)> = Vec::new();
    cands.push((low, high, total));
    let mut found: Vec<(Rat, Rat)> = Vec::new();
    proof {
        assert(pending_view(cands@) =~= init.0);
        assert(intervals_view(found@) =~= init.1);
        let c = pending_view(cands@);
        assert(pending_total(c.drop_last()) == 0);
    }
    let mut steps: u64 = 0;
    while cands.len() > 0
        invariant
            s == polys_view(seq@),
            init == (seq![(low@, high@, total as int)], Seq::<(Q, Q)>::empty()),
            isolation_iter(s, init, steps as nat) == Some((pending_view(cands@), intervals_view(found@))),
            isolation_sound(s, pending_view(cands@), intervals_view(found@)),
            pending_total(pending_view(cands@)) + found@.len() == total,
        ensures
            cands@.len() == 0,
        decreases u64::MAX - steps,
    {
        let ghost before = (pending_view(cands@), intervals_view(found@));
        if steps == u64::MAX {
            proof {
                assert forall|f: Seq<(Q, Q)>| !#[trigger] isolates_to(s, low@, high@, total as int, f) by {
                    if isolates_to(s, low@, high@, total as int, f) {
                        let kk = choose|kk: nat|
                            kk <= u64::MAX && #[trigger] isolation_iter(s, init, kk) == Some((Seq::<Pending>::empty(), f));
                        lemma_isolation_stays(s, init, kk, steps as nat);
                    }
                }
            }
            return None;
        }
        let (lo, hi, count) = match cands.pop() {
            Some(t) => t,
            None => {
                break;
            },
        };
        proof {
            assert(pending_view(cands@) =~= before.0.drop_last());
            assert(before.0[before.0.len() - 1] == (lo@, hi@, count as int));
            assert(pending_total(before.0) == pending_total(before.0.drop_last()) + count);
        }
        if count == 1 {
            let ghost fprev = found@;
            found.push((lo, hi));
            proof {
                assert(intervals_view(found@) =~= intervals_view(fprev).push((before.0.last().0, before.0.last().1)));
            }
        } else {
            let mid = lo.add(&hi).div(&Rat::from_i64(2));
            let a = count_sign_changes(seq.as_slice(), &lo);
            let b = count_sign_changes(seq.as_slice(), &mid);
            proof {
                use_type_invariant(&lo);
                use_type_invariant(&hi);
                lemma_midpoint_between(lo@, hi@);
            }
            if a < b || a - b > count {
                proof {
                    assert(isolation_iter(s, init, (steps + 1) as nat) is None);
                    assert forall|f: Seq<(Q, Q)>| !#[trigger] isolates_to(s, low@, high@, total as int, f) by {
                        if isolates_to(s, low@, high@, total as int, f) {
                            let kk = choose|kk: nat|
                                kk <= u64::MAX && #[trigger] isolation_iter(s, init, kk) == Some(
                                    (Seq::<Pending>::empty(), f),
                                );
                            if kk <= steps {
                                lemma_isolation_stays(s, init, kk, steps as nat);
                            } else {
                                lemma_isolation_stays(s, init, (steps + 1) as nat, kk);
                            }
                        }
                    }
                }
                return None;
            }
            let lc = a - b;
            let hc = count - lc;
            let ghost rest = pending_view(cands@);
            if lc > 0 {
                cands.push((lo.duplicate(), mid.duplicate(), lc));
            }
            let ghost c1 = pending_view(cands@);
            proof {
                if lc > 0 {
                    assert(c1 =~= rest.push((lo@, mid@, lc as int)));
                    assert(c1.drop_last() =~= rest);
                    assert(pending_total(c1) == pending_total(rest) + lc);
                } else {
                    assert(c1 =~= rest);
                }
            }
            if hc > 0 {
                cands.push((mid, hi, hc));
            }
            proof {
                let c2 = pending_view(cands@);
                if hc > 0 {
                    assert(c2 =~= c1.push((mid@, hi@, hc as int)));
                    assert(c2.drop_last() =~= c1);
                    assert(pending_total(c2) == pending_total(c1) + hc);
                } else {
                    assert(c2 =~= c1);
                }
            }
        }
        proof {
            let c = pending_view(cands@);
            let f = intervals_view(found@);
            assert(isolation_iter(s, init, (steps + 1) as nat) == isolation_step(s, before));
            assert(isolation_step(s, before) == Some((c, f)));
            assert forall|i: int| 0 <= i < c.len() implies qlt((#[trigger] c[i]).0, c[i].1) && c[i].0.d > 0 && c[i].1.d
                > 0 && counted_in(s, c[i].0, c[i].1) == c[i].2 && c[i].2 >= 0 by {
                if i < before.0.len() - 1 {
                    assert(c[i] == before.0[i]);
                }
            }
            assert forall|i: int| 0 <= i < f.len() implies qlt((#[trigger] f[i]).0, f[i].1) && counted_in(
                s,
                f[i].0,
                f[i].1,
            ) == 1 by {
                if i < before.1.len() {
                    assert(f[i] == before.1[i]);
                }
            }
        }
        steps = steps + 1;
    }
    proof {
        assert(pending_view(cands@) =~= Seq::<Pending>::empty());
        assert(isolation_iter(s, init, steps as nat) == Some((Seq::<Pending>::empty(), intervals_view(found@))));
        assert(isolates_to(s, low@, high@, total as int, intervals_view(found@)));
        assert(pending_total(pending_view(cands@)) == 0);
    }
    Some(found)
}

/// The real roots of the monic polynomial `factor` of positive degree, each
/// given by an interval `(low, high]` in which its Sturm chain counts exactly
/// one root (a linear factor's root is exact): the interval `(-2^k, 2^k]`
/// that holds every counted root is halved, last pending interval first,
/// until each part holds one (`isolation_step`). There are as many as the
/// chain counts real roots. `None` when `range_of_roots` gives up, when the
/// counts at the ends of an interval disagree, or when `u64::MAX` steps do
/// not finish.
#[verifier::spinoff_prover]
pub fn isolate_roots(factor: &UnivariatePolynomial) -> (r: Option<Vec<Root>>)
    requires
        is_clean(factor@),
        factor@.len() >= 2,
        factor@.last() == qint(1),
    ensures
        exists|s: Seq<Seq<Q>>| #[trigger] is_sturm_chain(factor@, s) && isolation_result(s, factor@, r),
{
    let seq = eulers_algorithm(factor);
    let ghost s = polys_view(seq@);
    proof {
        assert forall|k: int| 0 <= k < seq@.len() implies (#[trigger] polys_view(seq@)[k]).last().n != 0 by {
            if k == 0 {
                assert(s[0] == factor@);
            } else {
                assert(is_clean(s[k]));
                assert(!all_zero(s[k]));
                if s[k].len() == 1 {
                    assert(s[k][0].n != 0);
                }
            }
        }
    }
    let (lb, ub, total) = match range_of_roots(&seq) {
        None => {
            proof {
                if counted_total(s) >= 0 {
                    assert forall|k: nat| !#[trigger] first_hold(s, k) by {}
                }
                assert(isolation_result(s, factor@, None));
            }
            return None;
        },
        Some(t) => t,
    };
    let ghost k0 = choose|k: nat|
        k < u64::MAX && ub@ == qint(pow2(k) as int) && #[trigger] holds_all_at(s, k) && forall|j: nat|
            j < k ==> !#[trigger] holds_all_at(s, j);
    proof {
        assert(first_hold(s, k0));
        assert forall|k: nat| #[trigger] first_hold(s, k) implies k == k0 by {
            lemma_first_hold_unique(s, k, k0);
        }
        assert(qlt(lb@, ub@));
    }
    let found = match isolate_intervals(&seq, lb, ub, total) {
        None => {
            proof {
                assert(isolation_result(s, factor@, None));
            }
            return None;
        },
        Some(f) => f,
    };
    let ghost fv = intervals_view(found@);
    let mut roots: Vec<Root> = Vec::new();
    let mut i: usize = 0;
    while i < found.len()
        invariant
            fv == intervals_view(found@),
            isolation_sound(s, Seq::empty(), fv),
            factor@.len() >= 2,
            factor@.last() == qint(1),
            i <= found@.len(),
            roots@.len() == i,
            forall|j: int|
                0 <= j < i ==> (#[trigger] roots@[j])@.poly == factor@ && (factor@.len() > 2 ==> roots@[j]@.range
                    == RootRange::Interval(fv[j].0, fv[j].1)),
        decreases found@.len() - i,
    {
        assert(fv[i as int] == (found@[i as int].0@, found@[i as int].1@));
        let root = Root::new(factor.duplicate(), found[i].0.duplicate(), found[i].1.duplicate());
        roots.push(root);
        i = i + 1;
    }
    proof {
        assert(isolation_result(s, factor@, Some(roots)));
    }
    Some(roots)
}

/// The roots with no earlier root taken to be the same (`same_root`), in order.
pub open spec fn unique_prefix(s: Seq<RootView>) -> Seq<RootView>
    decreases s.len(),
{
    if s.len() == 0 {
        Seq::empty()
    } else {
        let u = unique_prefix(s.drop_last());
        if exists|j: int| 0 <= j < u.len() && same_root(#[trigger] u[j], s.last()) {
            u
        } else {
            u.push(s.last())
        }
    }
}

/// The values of a list of roots.
pub open spec fn roots_view(s: Seq<Root>) -> Seq<RootView> {
    s.map_values(|r: Root| r@)
}

/// Keeps each root unless an earlier kept root is taken to be the same.
fn unique_roots(roots: Vec<Root>) -> (r: Vec<Root>)
    ensures
        roots_view(r@) == unique_prefix(roots_view(roots@)),
{
    let ghost rs = roots_view(roots@);
    let mut unique: Vec<Root> = Vec::new();
    let mut i: usize = 0;
    while i < roots.len()
        invariant
            i <= roots@.len(),
            rs == roots_view(roots@),
            roots_view(unique@) == unique_prefix(rs.subrange(0, i as int)),
        decreases roots@.len() - i,
    {
        let root = &roots[i];
        let ghost u = roots_view(unique@);
        let mut found = false;
        let mut j: usize = 0;
        while j < unique.len()
            invariant
                j <= unique@.len(),
                u == roots_view(unique@),
                found ==> exists|t: int| 0 <= t < u.len() && same_root(#[trigger] u[t], root@),
                !found ==> forall|t: int| 0 <= t < j ==> !same_root(#[trigger] u[t], root@),
            decreases unique@.len() - j,
        {
            if unique[j].is_same_root(root) {
                assert(u[j as int] == unique@[j as int]@);
                found = true;
            } else {
                assert(u[j as int] == unique@[j as int]@);
            }
            j = j + 1;
        }
        proof {
            let s1 = rs.subrange(0, i + 1);
            assert(s1.drop_last() =~= rs.subrange(0, i as int));
            assert(s1.last() == root@);
        }
        if !found {
            let ghost prev = unique@;
            unique.push(root.duplicate());
            proof {
                assert(roots_view(unique@) =~= roots_view(prev).push(root@));
            }
        }
        i = i + 1;
    }
    proof {
        assert(rs.subrange(0, roots@.len() as int) =~= rs);
    }
    unique
}

/// The text of a root: its value when exact, else `[lower, upper] (poly)`.
pub open spec fn root_text(v: RootView) -> Seq<char> {
    match v.range {
        RootRange::Exact(x) => rat_text(x),
        RootRange::Interval(l, u) => seq!['['] + rat_text(l) + seq![',', ' '] + rat_text(u) + seq![']', ' ', '(']
            + crate::cad::univariate::uni_text_from(v.poly, 0) + seq![')'],
    }
}

impl Root {
    /// The root as text (`root_text`).
    pub fn to_text(&self) -> (r: String)
        ensures
            r@ == root_text(self@),
    {
        proof {
            reveal_strlit("[");
            reveal_strlit(", ");
            reveal_strlit("] (");
            reveal_strlit(")");
        }
        match &self.range {
            Range::Exact(x) => x.to_text(),
            Range::Interval(l, u) => {
                let mut s = String::from_str("[");
                s.append(l.to_text().as_str());
                s.append(", ");
                s.append(u.to_text().as_str());
                s.append("] (");
                s.append(self.poly.to_text().as_str());
                s.append(")");
                s
            },
        }
    }
}

} // verus!
