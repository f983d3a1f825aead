//! Signs of polynomials at algebraic points, decided by interval arithmetic
//! and root-separation bounds.
use crate::cad::binary_search::{bisect, refine_range};
use crate::cad::sturm::{Range, Root, RootRange, RootView};
use crate::cad::univariate::UnivariatePolynomial;
use crate::nonempty::rat_values;
use crate::number::{
    iabs, lemma_qnorm_sign, lemma_qnorm_value, lemma_qnorm_zero, qabs, qadd, qint, qle, qlt, qmul, qneg, qnorm, qpow, qsub, Int, Q, Rat,
};
use crate::cad::sturm::roots_view;
use crate::polynomial::{lex_desc, reorders, terms_view, Polynomial};
use vstd::arithmetic::power::pow;
use crate::polyfactor::{denominators_lcm, int_values, rational_to_integer_coeffs, scaled_numerators};
use crate::parser::ast::RelOp;
use vstd::arithmetic::power2::{lemma_pow2_strictly_increases, lemma_pow2_unfold, pow2};
use vstd::prelude::*;

verus! {

/// An interval that does not contain zero: `±[abs_lower, abs_upper]`.
pub struct SignedInterval {
    is_positive: bool,
    abs_lower: Rat,
    abs_upper: Rat,
}

/// An exact rational or an interval of known sign.
pub enum SignedRange {
    Exact(Rat),
    Interval(SignedInterval),
}

impl SignedInterval {
    pub closed spec fn positive(&self) -> bool {
        self.is_positive
    }

    pub closed spec fn lower(&self) -> Q {
        self.abs_lower@
    }

    pub closed spec fn upper(&self) -> Q {
        self.abs_upper@
    }

    /// Builds `±[abs_lower, abs_upper]`.
    pub fn new(is_positive: bool, abs_lower: Rat, abs_upper: Rat) -> (r: SignedInterval)
        ensures
            r.positive() == is_positive,
            r.lower() == abs_lower@,
            r.upper() == abs_upper@,
    {
        SignedInterval { is_positive, abs_lower, abs_upper }
    }

    /// The interval lies on the positive side.
    pub fn is_positive(&self) -> (r: bool)
        ensures
            r == self.positive(),
    {
        self.is_positive
    }

    /// The smaller absolute value.
    pub fn get_lower(&self) -> (r: &Rat)
        ensures
            r@ == self.lower(),
    {
        &self.abs_lower
    }

    /// The larger absolute value.
    pub fn get_upper(&self) -> (r: &Rat)
        ensures
            r@ == self.upper(),
    {
        &self.abs_upper
    }
}

/// The model of a signed range: `None` for an exact value `q`, or the sign and
/// the bounds on the absolute value.
pub enum RangeModel {
    Exact(Q),
    Interval(bool, Q, Q),
}

pub open spec fn range_model(r: SignedRange) -> RangeModel {
    match r {
        SignedRange::Exact(q) => RangeModel::Exact(q@),
        SignedRange::Interval(i) => RangeModel::Interval(i.positive(), i.lower(), i.upper()),
    }
}

/// A signed range raised to the power `e`.
pub open spec fn pow_model(m: RangeModel, e: nat) -> RangeModel {
    match m {
        RangeModel::Exact(q) => RangeModel::Exact(qpow(q, e)),
        RangeModel::Interval(p, lo, hi) => RangeModel::Interval(if e % 2 == 0 { true } else { p }, qpow(lo, e), qpow(hi, e)),
    }
}

/// A signed range multiplied by the constant `c`.
pub open spec fn mul_const_model(m: RangeModel, c: Q) -> RangeModel {
    match m {
        RangeModel::Exact(q) => RangeModel::Exact(qmul(q, c)),
        RangeModel::Interval(p, lo, hi) => if c.n == 0 {
            RangeModel::Exact(qint(0))
        } else {
            RangeModel::Interval(if c.n > 0 { p } else { !p }, qmul(lo, qabs(c)), qmul(hi, qabs(c)))
        },
    }
}

/// The product of two signed ranges.
pub open spec fn mul_model(a: RangeModel, b: RangeModel) -> RangeModel {
    match (a, b) {
        (RangeModel::Exact(x), RangeModel::Exact(y)) => RangeModel::Exact(qmul(x, y)),
        (RangeModel::Exact(x), RangeModel::Interval(_, _, _)) => mul_const_model(b, x),
        (RangeModel::Interval(_, _, _), RangeModel::Exact(x)) => mul_const_model(a, x),
        (RangeModel::Interval(p1, lo1, hi1), RangeModel::Interval(p2, lo2, hi2)) => RangeModel::Interval(
            p1 == p2,
            qmul(lo1, lo2),
            qmul(hi1, hi2),
        ),
    }
}

/// Whether `lower` and `upper` lie strictly on one side of zero: `Some(true)`
/// when both are positive, `Some(false)` when both are negative.
pub fn is_sign_consistent(lower: &Rat, upper: &Rat) -> (r: Option<bool>)
    ensures
        r == (if lower@.n > 0 && upper@.n > 0 {
            Some(true)
        } else if lower@.n < 0 && upper@.n < 0 {
            Some(false)
        } else {
            None::<bool>
        }),
{
    if lower.is_positive() && upper.is_positive() {
        Some(true)
    } else if lower.is_negative() && upper.is_negative() {
        Some(false)
    } else {
        None
    }
}

/// `x` lies in the signed range `m`: it is the exact value, or it has the
/// range's sign and an absolute value between its bounds.
pub open spec fn in_signed_range(x: Q, m: RangeModel) -> bool {
    match m {
        RangeModel::Exact(q) => x == q && x.d > 0,
        RangeModel::Interval(p, lo, hi) => {
            &&& x.d > 0
            &&& lo.d > 0
            &&& hi.d > 0
            &&& lo.n >= 0
            &&& if p {
                x.n > 0
            } else {
                x.n < 0
            }
            &&& qle(lo, qabs(x))
            &&& qle(qabs(x), hi)
        },
    }
}

proof fn lemma_pow_mul(a: int, b: int, e: nat)
    ensures
        pow(a * b, e) == pow(a, e) * pow(b, e),
    decreases e,
{
    reveal(pow);
    if e > 0 {
        lemma_pow_mul(a, b, (e - 1) as nat);
        let pa = pow(a, (e - 1) as nat);
        let pb = pow(b, (e - 1) as nat);
        assert((a * b) * (pa * pb) == (a * pa) * (b * pb)) by (nonlinear_arith);
    }
}

proof fn lemma_pow_mono(a: int, b: int, e: nat)
    requires
        0 <= a <= b,
    ensures
        0 <= pow(a, e) <= pow(b, e),
    decreases e,
{
    reveal(pow);
    if e > 0 {
        lemma_pow_mono(a, b, (e - 1) as nat);
        let pa = pow(a, (e - 1) as nat);
        let pb = pow(b, (e - 1) as nat);
        assert(0 <= a * pa <= b * pb) by (nonlinear_arith)
            requires
                0 <= a <= b,
                0 <= pa <= pb,
        ;
    }
}

/// The sign of a power: positive for an even exponent, the sign of the base
/// for an odd one; its absolute value is the power of the absolute value.
proof fn lemma_pow_sign(a: int, e: nat)
    requires
        a != 0,
    ensures
        e % 2 == 0 ==> pow(a, e) > 0,
        e % 2 == 1 ==> (pow(a, e) > 0 <==> a > 0) && (pow(a, e) < 0 <==> a < 0),
        iabs(pow(a, e)) == pow(iabs(a) as int, e),
    decreases e,
{
    reveal(pow);
    if e > 0 {
        lemma_pow_sign(a, (e - 1) as nat);
        let pa = pow(a, (e - 1) as nat);
        let qa = pow(iabs(a) as int, (e - 1) as nat);
        assert(pow(a, e) == a * pa);
        assert(pow(iabs(a) as int, e) == iabs(a) * qa);
        assert(pa != 0);
        if (e - 1) % 2 == 0 {
            assert(pa > 0);
            assert(a > 0 ==> a * pa > 0) by (nonlinear_arith)
                requires
                    pa > 0,
            ;
            assert(a < 0 ==> a * pa < 0) by (nonlinear_arith)
                requires
                    pa > 0,
            ;
        } else {
            assert(a * pa > 0) by (nonlinear_arith)
                requires
                    pa > 0 <==> a > 0,
                    pa < 0 <==> a < 0,
                    pa != 0,
                    a != 0,
            ;
        }
        assert(iabs(a * pa) == iabs(a) * iabs(pa)) by (nonlinear_arith)
            requires
                iabs(a) == if a < 0 { -a } else { a },
                iabs(pa) == if pa < 0 { -pa } else { pa },
                iabs(a * pa) == if a * pa < 0 { -(a * pa) } else { a * pa },
        ;
    }
}

/// `qnorm(a1, b1) <= |qnorm(a2, b2)|` when `a1 / b1 <= |a2| / b2`.
proof fn lemma_qle_norm_abs(a1: int, b1: int, a2: int, b2: int)
    requires
        b1 > 0,
        b2 > 0,
        a1 * b2 <= iabs(a2) * b1,
    ensures
        qle(qnorm(a1, b1), qabs(qnorm(a2, b2))),
{
    let x = qnorm(a1, b1);
    let y = qnorm(a2, b2);
    lemma_qnorm_value(a1, b1);
    lemma_qnorm_value(a2, b2);
    let ya = iabs(y.n) as int;
    let aa = iabs(a2) as int;
    assert(ya * b2 == aa * y.d) by (nonlinear_arith)
        requires
            y.n * b2 == a2 * y.d,
            b2 > 0,
            y.d > 0,
            ya == if y.n < 0 { -y.n } else { y.n },
            aa == if a2 < 0 { -a2 } else { a2 },
    ;
    let pp = b1 * b2;
    let dd = x.d * y.d;
    assert(pp > 0 && dd > 0) by (nonlinear_arith)
        requires
            b1 > 0,
            b2 > 0,
            x.d > 0,
            y.d > 0,
            pp == b1 * b2,
            dd == x.d * y.d,
    ;
    assert(x.n * y.d * pp == a1 * b2 * dd) by (nonlinear_arith)
        requires
            x.n * b1 == a1 * x.d,
            pp == b1 * b2,
            dd == x.d * y.d,
    ;
    assert(ya * x.d * pp == aa * b1 * dd) by (nonlinear_arith)
        requires
            ya * b2 == aa * y.d,
            pp == b1 * b2,
            dd == x.d * y.d,
    ;
    assert(a1 * b2 * dd <= aa * b1 * dd) by (nonlinear_arith)
        requires
            a1 * b2 <= aa * b1,
            dd > 0,
    ;
    assert(x.n * y.d <= ya * x.d) by (nonlinear_arith)
        requires
            x.n * y.d * pp <= ya * x.d * pp,
            pp > 0,
    ;
}

/// `|qnorm(a2, b2)| <= qnorm(a1, b1)` when `|a2| / b2 <= a1 / b1`.
proof fn lemma_qle_abs_norm(a1: int, b1: int, a2: int, b2: int)
    requires
        b1 > 0,
        b2 > 0,
        iabs(a2) * b1 <= a1 * b2,
    ensures
        qle(qabs(qnorm(a2, b2)), qnorm(a1, b1)),
{
    let x = qnorm(a1, b1);
    let y = qnorm(a2, b2);
    lemma_qnorm_value(a1, b1);
    lemma_qnorm_value(a2, b2);
    let ya = iabs(y.n) as int;
    let aa = iabs(a2) as int;
    assert(ya * b2 == aa * y.d) by (nonlinear_arith)
        requires
            y.n * b2 == a2 * y.d,
            b2 > 0,
            y.d > 0,
            ya == if y.n < 0 { -y.n } else { y.n },
            aa == if a2 < 0 { -a2 } else { a2 },
    ;
    let pp = b1 * b2;
    let dd = x.d * y.d;
    assert(pp > 0 && dd > 0) by (nonlinear_arith)
        requires
            b1 > 0,
            b2 > 0,
            x.d > 0,
            y.d > 0,
            pp == b1 * b2,
            dd == x.d * y.d,
    ;
    assert(x.n * y.d * pp == a1 * b2 * dd) by (nonlinear_arith)
        requires
            x.n * b1 == a1 * x.d,
            pp == b1 * b2,
            dd == x.d * y.d,
    ;
    assert(ya * x.d * pp == aa * b1 * dd) by (nonlinear_arith)
        requires
            ya * b2 == aa * y.d,
            pp == b1 * b2,
            dd == x.d * y.d,
    ;
    assert(aa * b1 * dd <= a1 * b2 * dd) by (nonlinear_arith)
        requires
            aa * b1 <= a1 * b2,
            dd > 0,
    ;
    assert(ya * x.d <= x.n * y.d) by (nonlinear_arith)
        requires
            ya * x.d * pp <= x.n * y.d * pp,
            pp > 0,
    ;
}

/// Raising to a power keeps a value within its signed range: if `x` lies in
/// `m`, then `x^e` lies in `pow_model(m, e)`; in particular an even power of
/// a non-zero value is positive.
pub proof fn lemma_pow_model_sound(x: Q, m: RangeModel, e: nat)
    requires
        in_signed_range(x, m),
    ensures
        in_signed_range(qpow(x, e), pow_model(m, e)),
{
    match m {
        RangeModel::Exact(q) => {
            lemma_pow_mono(1, x.d, e);
            lemma_pow_one(e);
            lemma_qnorm_value(pow(x.n, e), pow(x.d, e));
        },
        RangeModel::Interval(p, lo, hi) => {
            let xp = qpow(x, e);
            lemma_pow_mono(1, x.d, e);
            lemma_pow_mono(1, lo.d, e);
            lemma_pow_mono(1, hi.d, e);
            assert(pow(1, e) == 1) by {
                lemma_pow_mono(1, 1, e);
                lemma_pow_one(e);
            }
            lemma_qnorm_value(pow(x.n, e), pow(x.d, e));
            lemma_qnorm_value(pow(lo.n, e), pow(lo.d, e));
            lemma_qnorm_value(pow(hi.n, e), pow(hi.d, e));
            lemma_qnorm_sign(pow(x.n, e), pow(x.d, e));
            lemma_qnorm_sign(pow(lo.n, e), pow(lo.d, e));
            lemma_pow_sign(x.n, e);
            lemma_pow_mono(0, lo.n, e);
            assert(pow(0, e) >= 0);
            // lower bound
            let ax = iabs(x.n) as int;
            lemma_pow_mono(lo.n * x.d, ax * lo.d, e);
            lemma_pow_mul(lo.n, x.d, e);
            lemma_pow_mul(ax, lo.d, e);
            lemma_qle_norm_abs(pow(lo.n, e), pow(lo.d, e), pow(x.n, e), pow(x.d, e));
            // upper bound
            assert(0 <= ax * hi.d) by (nonlinear_arith)
                requires
                    ax >= 0,
                    hi.d > 0,
            ;
            lemma_pow_mono(ax * hi.d, hi.n * x.d, e);
            lemma_pow_mul(hi.n, x.d, e);
            lemma_pow_mul(ax, hi.d, e);
            lemma_qle_abs_norm(pow(hi.n, e), pow(hi.d, e), pow(x.n, e), pow(x.d, e));
            if e % 2 == 1 {
                assert(e % 2 != 0);
            }
        },
    }
}

/// `|a * b| == |a| * |b|`.
proof fn lemma_iabs_mul(a: int, b: int)
    ensures
        iabs(a * b) == iabs(a) * iabs(b),
{
    assert(iabs(a * b) == iabs(a) * iabs(b)) by (nonlinear_arith)
        requires
            iabs(a) == if a < 0 { -a } else { a },
            iabs(b) == if b < 0 { -b } else { b },
            iabs(a * b) == if a * b < 0 { -(a * b) } else { a * b },
    ;
}

/// A product of two non-negative lower bounds is at most the product of the
/// larger values.
proof fn lemma_mul_le(a1: int, b1: int, a2: int, b2: int)
    requires
        0 <= a1 <= b1,
        0 <= a2 <= b2,
    ensures
        0 <= a1 * a2 <= b1 * b2,
{
    assert(0 <= a1 * a2 <= b1 * b2) by (nonlinear_arith)
        requires
            0 <= a1 <= b1,
            0 <= a2 <= b2,
    ;
}

/// If `|y1|` lies in `[lo1, hi1]` and `|y2|` in `[lo2, hi2]` (with
/// non-negative lower bounds), then `|y1 * y2|` lies in
/// `[lo1 * lo2, hi1 * hi2]`.
proof fn lemma_abs_product_bounds(y1: Q, lo1: Q, hi1: Q, y2: Q, lo2: Q, hi2: Q)
    requires
        y1.d > 0,
        lo1.d > 0,
        hi1.d > 0,
        y2.d > 0,
        lo2.d > 0,
        hi2.d > 0,
        lo1.n >= 0,
        lo2.n >= 0,
        qle(lo1, qabs(y1)),
        qle(qabs(y1), hi1),
        qle(lo2, qabs(y2)),
        qle(qabs(y2), hi2),
    ensures
        qle(qmul(lo1, lo2), qabs(qmul(y1, y2))),
        qle(qabs(qmul(y1, y2)), qmul(hi1, hi2)),
        qmul(lo1, lo2).n >= 0,
        qmul(lo1, lo2).d > 0,
        qmul(hi1, hi2).d > 0,
        qmul(y1, y2).d > 0,
{
    let ay1 = iabs(y1.n) as int;
    let ay2 = iabs(y2.n) as int;
    let dl = lo1.d * lo2.d;
    let dh = hi1.d * hi2.d;
    let dy = y1.d * y2.d;
    assert(dl > 0 && dh > 0 && dy > 0) by (nonlinear_arith)
        requires
            lo1.d > 0,
            lo2.d > 0,
            hi1.d > 0,
            hi2.d > 0,
            y1.d > 0,
            y2.d > 0,
            dl == lo1.d * lo2.d,
            dh == hi1.d * hi2.d,
            dy == y1.d * y2.d,
    ;
    lemma_qnorm_value(lo1.n * lo2.n, dl);
    lemma_qnorm_value(hi1.n * hi2.n, dh);
    lemma_qnorm_value(y1.n * y2.n, dy);
    lemma_iabs_mul(y1.n, y2.n);
    // lower bound
    lemma_mul_le(lo1.n * y1.d, ay1 * lo1.d, lo2.n * y2.d, ay2 * lo2.d);
    assert(lo1.n * lo2.n * dy == (lo1.n * y1.d) * (lo2.n * y2.d)) by (nonlinear_arith)
        requires
            dy == y1.d * y2.d,
    ;
    assert(iabs(y1.n * y2.n) * dl == (ay1 * lo1.d) * (ay2 * lo2.d)) by (nonlinear_arith)
        requires
            iabs(y1.n * y2.n) == ay1 * ay2,
            dl == lo1.d * lo2.d,
    ;
    lemma_qle_norm_abs(lo1.n * lo2.n, dl, y1.n * y2.n, dy);
    // upper bound
    assert(0 <= ay1 * hi1.d && 0 <= ay2 * hi2.d) by (nonlinear_arith)
        requires
            ay1 >= 0,
            ay2 >= 0,
            hi1.d > 0,
            hi2.d > 0,
    ;
    lemma_mul_le(ay1 * hi1.d, hi1.n * y1.d, ay2 * hi2.d, hi2.n * y2.d);
    assert(hi1.n * hi2.n * dy == (hi1.n * y1.d) * (hi2.n * y2.d)) by (nonlinear_arith)
        requires
            dy == y1.d * y2.d,
    ;
    assert(iabs(y1.n * y2.n) * dh == (ay1 * hi1.d) * (ay2 * hi2.d)) by (nonlinear_arith)
        requires
            iabs(y1.n * y2.n) == ay1 * ay2,
            dh == hi1.d * hi2.d,
    ;
    lemma_qle_abs_norm(hi1.n * hi2.n, dh, y1.n * y2.n, dy);
    // the lower bound is not negative
    assert(lo1.n * lo2.n >= 0) by (nonlinear_arith)
        requires
            lo1.n >= 0,
            lo2.n >= 0,
    ;
    lemma_qnorm_sign(lo1.n * lo2.n, dl);
}

/// The sign of a product.
proof fn lemma_product_sign(y1: Q, y2: Q)
    requires
        y1.d > 0,
        y2.d > 0,
        y1.n != 0,
        y2.n != 0,
    ensures
        qmul(y1, y2).n > 0 <==> (y1.n > 0) == (y2.n > 0),
        qmul(y1, y2).n < 0 <==> (y1.n > 0) != (y2.n > 0),
{
    let dy = y1.d * y2.d;
    assert(dy > 0) by (nonlinear_arith)
        requires
            y1.d > 0,
            y2.d > 0,
            dy == y1.d * y2.d,
    ;
    lemma_qnorm_sign(y1.n * y2.n, dy);
    assert((y1.n * y2.n > 0) <==> ((y1.n > 0) == (y2.n > 0))) by (nonlinear_arith)
        requires
            y1.n != 0,
            y2.n != 0,
    ;
    assert((y1.n * y2.n < 0) <==> ((y1.n > 0) != (y2.n > 0))) by (nonlinear_arith)
        requires
            y1.n != 0,
            y2.n != 0,
    ;
}

/// Multiplying by a constant: if `y` lies in the signed range `m`, then
/// `c * y` lies in `mul_const_model(m, c)`.
pub proof fn lemma_mul_const_model_sound(y: Q, m: RangeModel, c: Q)
    requires
        in_signed_range(y, m),
        c.d > 0,
    ensures
        in_signed_range(qmul(c, y), mul_const_model(m, c)),
        in_signed_range(qmul(y, c), mul_const_model(m, c)),
{
    assert(qmul(c, y) == qmul(y, c)) by {
        assert(c.n * y.n == y.n * c.n) by (nonlinear_arith);
        assert(c.d * y.d == y.d * c.d) by (nonlinear_arith);
    }
    let dy = y.d * c.d;
    assert(dy > 0) by (nonlinear_arith)
        requires
            y.d > 0,
            c.d > 0,
            dy == y.d * c.d,
    ;
    lemma_qnorm_value(y.n * c.n, dy);
    match m {
        RangeModel::Exact(q) => {},
        RangeModel::Interval(p, lo, hi) => {
            if c.n == 0 {
                assert(y.n * c.n == 0);
                lemma_qnorm_zero(0, dy);
                let z = qmul(y, c);
                assert(z.n == 0);
                assert(iabs(0) == 0);
                assert(iabs(dy) == dy);
                let g = crate::number::gcd(0, dy as nat);
                assert((0nat % (dy as nat)) == 0) by (nonlinear_arith)
                    requires
                        dy > 0,
                ;
                assert(g == crate::number::gcd(dy as nat, 0nat % (dy as nat)));
                assert(g == crate::number::gcd(dy as nat, 0));
                assert(g == dy);
                assert(z == qnorm(0, dy));
                assert(z.d == dy / dy);
                assert(dy / dy == 1) by (nonlinear_arith)
                    requires
                        dy > 0,
                ;
            } else {
                let ac = qabs(c);
                assert(qle(ac, qabs(c)));
                assert(qle(qabs(c), ac));
                lemma_abs_product_bounds(y, lo, hi, c, ac, ac);
                lemma_product_sign(y, c);
            }
        },
    }
}

/// Multiplying two values: if `x` lies in the signed range `a` and `y` in
/// `b`, then `x * y` lies in `mul_model(a, b)`; in particular the product of
/// two values of the same sign is positive.
pub proof fn lemma_mul_model_sound(x: Q, a: RangeModel, y: Q, b: RangeModel)
    requires
        in_signed_range(x, a),
        in_signed_range(y, b),
    ensures
        in_signed_range(qmul(x, y), mul_model(a, b)),
{
    match (a, b) {
        (RangeModel::Exact(p), RangeModel::Exact(q)) => {
            lemma_den_product(x, y);
        },
        (RangeModel::Exact(p), RangeModel::Interval(_, _, _)) => {
            lemma_mul_const_model_sound(y, b, x);
        },
        (RangeModel::Interval(_, _, _), RangeModel::Exact(q)) => {
            lemma_mul_const_model_sound(x, a, y);
        },
        (RangeModel::Interval(p1, lo1, hi1), RangeModel::Interval(p2, lo2, hi2)) => {
            lemma_abs_product_bounds(x, lo1, hi1, y, lo2, hi2);
            lemma_product_sign(x, y);
        },
    }
}

/// `y` lies in the interval `[u.lower, u.upper]`.
pub open spec fn in_unsigned(y: Q, u: UnsignedModel) -> bool {
    &&& y.d > 0
    &&& u.lower.d > 0
    &&& u.upper.d > 0
    &&& qle(u.lower, y)
    &&& qle(y, u.upper)
}

/// A value in a signed range lies in the interval that `to_unsigned` gives.
pub proof fn lemma_to_unsigned_sound(y: Q, m: MahlerModel)
    requires
        in_signed_range(y, m.range),
    ensures
        in_unsigned(y, to_unsigned(m)),
{
    match m.range {
        RangeModel::Exact(r) => {},
        RangeModel::Interval(p, lo, hi) => {
            let ay = iabs(y.n) as int;
            if p {
                assert(qabs(y) == y);
            } else {
                assert(ay == -y.n);
                assert(qle(qneg(hi), y)) by {
                    assert(ay * hi.d <= hi.n * y.d);
                    assert(-hi.n * y.d <= y.n * hi.d) by (nonlinear_arith)
                        requires
                            ay * hi.d <= hi.n * y.d,
                            ay == -y.n,
                    ;
                }
                assert(qle(y, qneg(lo))) by {
                    assert(lo.n * y.d <= ay * lo.d);
                    assert(y.n * lo.d <= -lo.n * y.d) by (nonlinear_arith)
                        requires
                            lo.n * y.d <= ay * lo.d,
                            ay == -y.n,
                    ;
                }
            }
        },
    }
}

/// `qnorm(n1, d1) <= qnorm(n2, d2)` when `n1 / d1 <= n2 / d2`.
pub(crate) proof fn lemma_qle_norm(n1: int, d1: int, n2: int, d2: int)
    requires
        d1 > 0,
        d2 > 0,
        n1 * d2 <= n2 * d1,
    ensures
        qle(qnorm(n1, d1), qnorm(n2, d2)),
{
    let x = qnorm(n1, d1);
    let y = qnorm(n2, d2);
    lemma_qnorm_value(n1, d1);
    lemma_qnorm_value(n2, d2);
    let pp = d1 * d2;
    let dd = x.d * y.d;
    assert(pp > 0 && dd > 0) by (nonlinear_arith)
        requires
            d1 > 0,
            d2 > 0,
            x.d > 0,
            y.d > 0,
            pp == d1 * d2,
            dd == x.d * y.d,
    ;
    assert(x.n * y.d * pp == n1 * d2 * dd) by (nonlinear_arith)
        requires
            x.n * d1 == n1 * x.d,
            pp == d1 * d2,
            dd == x.d * y.d,
    ;
    assert(y.n * x.d * pp == n2 * d1 * dd) by (nonlinear_arith)
        requires
            y.n * d2 == n2 * y.d,
            pp == d1 * d2,
            dd == x.d * y.d,
    ;
    assert(n1 * d2 * dd <= n2 * d1 * dd) by (nonlinear_arith)
        requires
            n1 * d2 <= n2 * d1,
            dd > 0,
    ;
    assert(x.n * y.d <= y.n * x.d) by (nonlinear_arith)
        requires
            x.n * y.d * pp <= y.n * x.d * pp,
            pp > 0,
    ;
}

/// Adding values adds their intervals: if `a` lies in `ua` and `b` in `ub`,
/// then `a + b` lies in `add_unsigned(ua, ub)`.
pub proof fn lemma_add_unsigned_sound(a: Q, ua: UnsignedModel, b: Q, ub: UnsignedModel)
    requires
        in_unsigned(a, ua),
        in_unsigned(b, ub),
    ensures
        in_unsigned(qadd(a, b), add_unsigned(ua, ub)),
{
    let l1 = ua.lower;
    let l2 = ub.lower;
    let h1 = ua.upper;
    let h2 = ub.upper;
    let dab = a.d * b.d;
    let dl = l1.d * l2.d;
    let dh = h1.d * h2.d;
    assert(dab > 0 && dl > 0 && dh > 0) by (nonlinear_arith)
        requires
            a.d > 0,
            b.d > 0,
            l1.d > 0,
            l2.d > 0,
            h1.d > 0,
            h2.d > 0,
            dab == a.d * b.d,
            dl == l1.d * l2.d,
            dh == h1.d * h2.d,
    ;
    lemma_qnorm_value(a.n * b.d + b.n * a.d, dab);
    lemma_qnorm_value(l1.n * l2.d + l2.n * l1.d, dl);
    lemma_qnorm_value(h1.n * h2.d + h2.n * h1.d, dh);
    let p1 = l2.d * b.d;
    let p2 = l1.d * a.d;
    assert(p1 > 0 && p2 > 0) by (nonlinear_arith)
        requires
            l2.d > 0,
            b.d > 0,
            l1.d > 0,
            a.d > 0,
            p1 == l2.d * b.d,
            p2 == l1.d * a.d,
    ;
    assert(l1.n * a.d * p1 <= a.n * l1.d * p1) by (nonlinear_arith)
        requires
            l1.n * a.d <= a.n * l1.d,
            p1 > 0,
    ;
    assert(l2.n * b.d * p2 <= b.n * l2.d * p2) by (nonlinear_arith)
        requires
            l2.n * b.d <= b.n * l2.d,
            p2 > 0,
    ;
    lemma_four(l1.n, l2.d, a.d, b.d);
    lemma_four(l2.n, l1.d, b.d, a.d);
    lemma_four(a.n, b.d, l1.d, l2.d);
    lemma_four(b.n, a.d, l2.d, l1.d);
    lemma_distrib(l1.n * l2.d, l2.n * l1.d, dab);
    lemma_distrib(a.n * b.d, b.n * a.d, dl);
    assert(l2.d * b.d == b.d * l2.d) by (nonlinear_arith);
    assert(l1.d * a.d == a.d * l1.d) by (nonlinear_arith);
    assert(dl == l2.d * l1.d) by (nonlinear_arith)
        requires
            dl == l1.d * l2.d,
    ;
    assert(dab == b.d * a.d) by (nonlinear_arith)
        requires
            dab == a.d * b.d,
    ;
    lemma_qle_norm(l1.n * l2.d + l2.n * l1.d, dl, a.n * b.d + b.n * a.d, dab);
    let r1 = b.d * h2.d;
    let r2 = a.d * h1.d;
    assert(r1 > 0 && r2 > 0) by (nonlinear_arith)
        requires
            h2.d > 0,
            b.d > 0,
            h1.d > 0,
            a.d > 0,
            r1 == b.d * h2.d,
            r2 == a.d * h1.d,
    ;
    assert(a.n * h1.d * r1 <= h1.n * a.d * r1) by (nonlinear_arith)
        requires
            a.n * h1.d <= h1.n * a.d,
            r1 > 0,
    ;
    assert(b.n * h2.d * r2 <= h2.n * b.d * r2) by (nonlinear_arith)
        requires
            b.n * h2.d <= h2.n * b.d,
            r2 > 0,
    ;
    lemma_four(a.n, b.d, h1.d, h2.d);
    lemma_four(b.n, a.d, h2.d, h1.d);
    lemma_four(h1.n, h2.d, a.d, b.d);
    lemma_four(h2.n, h1.d, b.d, a.d);
    lemma_distrib(a.n * b.d, b.n * a.d, dh);
    lemma_distrib(h1.n * h2.d, h2.n * h1.d, dab);
    assert(dh == h2.d * h1.d) by (nonlinear_arith)
        requires
            dh == h1.d * h2.d,
    ;
    assert(dab == b.d * a.d) by (nonlinear_arith)
        requires
            dab == a.d * b.d,
    ;
    lemma_qle_norm(a.n * b.d + b.n * a.d, dab, h1.n * h2.d + h2.n * h1.d, dh);
}

/// `x * y * (z * w) == x * z * (y * w)`.
proof fn lemma_four(x: int, y: int, z: int, w: int)
    ensures
        x * y * (z * w) == x * z * (y * w),
{
    assert(x * y * (z * w) == x * z * (y * w)) by (nonlinear_arith);
}

/// `(x + y) * z == x * z + y * z`.
proof fn lemma_distrib(x: int, y: int, z: int)
    ensures
        (x + y) * z == x * z + y * z,
{
    assert((x + y) * z == x * z + y * z) by (nonlinear_arith);
}

/// The sign that `classify` reads from an interval is the sign of every
/// value in it: positive when the lower bound is, negative when the upper
/// bound is.
pub proof fn lemma_classify_sound(y: Q, u: UnsignedModel)
    requires
        in_unsigned(y, u),
    ensures
        classify(Some(u)) is Positive ==> y.n > 0,
        classify(Some(u)) is Negative ==> y.n < 0,
{
    if u.lower.n > 0 {
        assert(y.n > 0) by (nonlinear_arith)
            requires
                u.lower.n * y.d <= y.n * u.lower.d,
                u.lower.n > 0,
                y.d > 0,
                u.lower.d > 0,
        ;
    } else if u.upper.n < 0 {
        assert(y.n < 0) by (nonlinear_arith)
            requires
                y.n * u.upper.d <= u.upper.n * y.d,
                u.upper.n < 0,
                y.d > 0,
                u.upper.d > 0,
        ;
    }
}

/// The value at the point `x` of the term `c x^e`, over its first `j`
/// variables (a zero exponent gives the factor 1).
pub open spec fn term_value(e: Seq<u32>, c: Q, x: Seq<Q>, j: nat) -> Q
    decreases j,
{
    if j == 0 {
        c
    } else if e[j - 1] == 0 {
        term_value(e, c, x, (j - 1) as nat)
    } else {
        qmul(term_value(e, c, x, (j - 1) as nat), qpow(x[j - 1], e[j - 1] as nat))
    }
}

/// The value at the point `x` of the sum of the first `k` terms, each over
/// the variables that `x` gives a coordinate.
pub open spec fn terms_value(t: Seq<(Seq<u32>, Q)>, x: Seq<Q>, k: nat) -> Q
    decreases k,
{
    if k == 0 {
        qint(0)
    } else {
        let e = t[k - 1].0;
        qadd(terms_value(t, x, (k - 1) as nat), term_value(e, t[k - 1].1, x, if e.len() <= x.len() { e.len() } else { x.len() }))
    }
}

/// Zero to a positive power is zero.
proof fn lemma_pow_zero_base(e: nat)
    requires
        e > 0,
    ensures
        pow(0, e) == 0,
{
    reveal(pow);
}

/// A product whose first factor is zero is zero.
proof fn lemma_qmul_zero_left(a: Q, b: Q)
    requires
        a.n == 0,
        a.d > 0,
        b.d > 0,
    ensures
        qmul(a, b).n == 0,
        qmul(a, b).d > 0,
{
    let dd = a.d * b.d;
    assert(dd > 0) by (nonlinear_arith)
        requires
            a.d > 0,
            b.d > 0,
            dd == a.d * b.d,
    ;
    assert(a.n * b.n == 0) by (nonlinear_arith)
        requires
            a.n == 0,
    ;
    lemma_qnorm_zero(a.n * b.n, dd);
}

/// Each factor of the term stays within the range its description gives:
/// if every coordinate of `x` lies in its signed range, the value of the
/// term lies in the range of `term_acc`, and is zero where that is `None`.
proof fn lemma_term_sound(e: Seq<u32>, c: Q, roots: Seq<RootView>, ranges: Seq<RangeModel>, x: Seq<Q>, j: nat)
    requires
        c.d > 0,
        j <= e.len(),
        j <= roots.len(),
        ranges.len() == roots.len(),
        x.len() == roots.len(),
        forall|i: int| 0 <= i < x.len() ==> in_signed_range(#[trigger] x[i], ranges[i]),
    ensures
        term_value(e, c, x, j).d > 0,
        term_acc(e, c, roots, ranges, j) matches Some(m) ==> in_signed_range(term_value(e, c, x, j), m.range),
        term_acc(e, c, roots, ranges, j) is None ==> term_value(e, c, x, j).n == 0,
    decreases j,
{
    if j > 0 {
        lemma_term_sound(e, c, roots, ranges, x, (j - 1) as nat);
        let k = (j - 1) as int;
        if e[k] != 0 {
            let ex = e[k] as nat;
            let prev = term_value(e, c, x, (j - 1) as nat);
            let y = qpow(x[k], ex);
            assert(in_signed_range(x[k], ranges[k]));
            lemma_pow_model_sound(x[k], ranges[k], ex);
            assert(y.d > 0);
            let dd = prev.d * y.d;
            assert(dd > 0) by (nonlinear_arith)
                requires
                    prev.d > 0,
                    y.d > 0,
                    dd == prev.d * y.d,
            ;
            lemma_qnorm_value(prev.n * y.n, dd);
            match term_acc(e, c, roots, ranges, (j - 1) as nat) {
                None => {
                    lemma_qmul_zero_left(prev, y);
                },
                Some(acc) => {
                    match root_model(roots[k], ranges[k]) {
                        None => {
                            let x0 = x[k];
                            assert(ranges[k] == RangeModel::Exact(x0));
                            assert(x0.n == 0);
                            lemma_pow_zero_base(ex);
                            lemma_pow_sign(x0.d, ex);
                            lemma_qnorm_zero(pow(x0.n, ex), pow(x0.d, ex));
                            assert(y.n == 0);
                            assert(prev.n * y.n == 0) by (nonlinear_arith)
                                requires
                                    y.n == 0,
                            ;
                            lemma_qnorm_zero(prev.n * y.n, dd);
                        },
                        Some(rm) => {
                            assert(rm.range == ranges[k]);
                            lemma_mul_model_sound(prev, acc.range, y, pow_model(ranges[k], ex));
                        },
                    }
                },
            }
        }
    }
}

/// A value in an interval stays there under another fraction for it.
proof fn lemma_unsigned_same_value(y: Q, y2: Q, u: UnsignedModel)
    requires
        in_unsigned(y, u),
        y2.d > 0,
        y2.n * y.d == y.n * y2.d,
    ensures
        in_unsigned(y2, u),
{
    let l = u.lower;
    let h = u.upper;
    assert(l.n * y2.d <= y2.n * l.d) by (nonlinear_arith)
        requires
            l.n * y.d <= y.n * l.d,
            y2.n * y.d == y.n * y2.d,
            y.d > 0,
            y2.d > 0,
            l.d > 0,
    {
        assert((l.n * y2.d) * y.d == (l.n * y.d) * y2.d);
        assert((l.n * y.d) * y2.d <= (y.n * l.d) * y2.d);
        assert((y.n * l.d) * y2.d == (y2.n * l.d) * y.d);
    }
    assert(y2.n * h.d <= h.n * y2.d) by (nonlinear_arith)
        requires
            y.n * h.d <= h.n * y.d,
            y2.n * y.d == y.n * y2.d,
            y.d > 0,
            y2.d > 0,
            h.d > 0,
    {
        assert((y2.n * h.d) * y.d == (y.n * h.d) * y2.d);
        assert((y.n * h.d) * y2.d <= (h.n * y.d) * y2.d);
    }
}

/// Adding a zero keeps the value: `qadd(a, b)` equals `b` when `a` is zero
/// and `a` when `b` is.
proof fn lemma_qadd_zero(a: Q, b: Q)
    requires
        a.d > 0,
        b.d > 0,
    ensures
        qadd(a, b).d > 0,
        a.n == 0 ==> qadd(a, b).n * b.d == b.n * qadd(a, b).d,
        b.n == 0 ==> qadd(a, b).n * a.d == a.n * qadd(a, b).d,
{
    let s = qadd(a, b);
    let nn = a.n * b.d + b.n * a.d;
    let dd = a.d * b.d;
    assert(dd > 0) by (nonlinear_arith)
        requires
            a.d > 0,
            b.d > 0,
            dd == a.d * b.d,
    ;
    lemma_qnorm_value(nn, dd);
    if a.n == 0 {
        assert(s.n * b.d == b.n * s.d) by (nonlinear_arith)
            requires
                s.n * dd == nn * s.d,
                nn == a.n * b.d + b.n * a.d,
                dd == a.d * b.d,
                a.n == 0,
                a.d > 0,
        {
            assert(nn == b.n * a.d);
            assert((s.n * b.d) * a.d == (b.n * s.d) * a.d);
        }
    }
    if b.n == 0 {
        assert(s.n * a.d == a.n * s.d) by (nonlinear_arith)
            requires
                s.n * dd == nn * s.d,
                nn == a.n * b.d + b.n * a.d,
                dd == a.d * b.d,
                b.n == 0,
                b.d > 0,
        {
            assert(nn == a.n * b.d);
            assert((s.n * a.d) * b.d == (a.n * s.d) * b.d);
        }
    }
}

/// The sum of the terms stays within the interval that `terms_sum` gives,
/// and is zero where that is `None`.
proof fn lemma_terms_sound(t: Seq<(Seq<u32>, Q)>, roots: Seq<RootView>, ranges: Seq<RangeModel>, x: Seq<Q>, k: nat)
    requires
        k <= t.len(),
        forall|i: int| 0 <= i < t.len() ==> (#[trigger] t[i]).1.d > 0,
        ranges.len() == roots.len(),
        x.len() == roots.len(),
        forall|i: int| 0 <= i < x.len() ==> in_signed_range(#[trigger] x[i], ranges[i]),
    ensures
        terms_value(t, x, k).d > 0,
        terms_sum(t, roots, ranges, k) matches Some(u) ==> in_unsigned(terms_value(t, x, k), u),
        terms_sum(t, roots, ranges, k) is None ==> terms_value(t, x, k).n == 0,
    decreases k,
{
    if k > 0 {
        lemma_terms_sound(t, roots, ranges, x, (k - 1) as nat);
        let e = t[k - 1].0;
        let c = t[k - 1].1;
        let j = paired(e, roots);
        assert(c.d > 0);
        lemma_term_sound(e, c, roots, ranges, x, j);
        let prev = terms_value(t, x, (k - 1) as nat);
        let z = term_value(e, c, x, j);
        let s = qadd(prev, z);
        assert(terms_value(t, x, k) == s);
        lemma_qadd_zero(prev, z);
        match term_acc(e, c, roots, ranges, j) {
            None => {
                match terms_sum(t, roots, ranges, (k - 1) as nat) {
                    None => {
                        lemma_qadd_zero(prev, z);
                        assert(s.n * z.d == z.n * s.d);
                        assert(s.n == 0) by (nonlinear_arith)
                            requires
                                s.n * z.d == z.n * s.d,
                                z.n == 0,
                                z.d > 0,
                        ;
                    },
                    Some(p) => {
                        lemma_unsigned_same_value(prev, s, p);
                    },
                }
            },
            Some(m) => {
                lemma_to_unsigned_sound(z, m);
                match terms_sum(t, roots, ranges, (k - 1) as nat) {
                    None => {
                        lemma_unsigned_same_value(z, s, to_unsigned(m));
                    },
                    Some(p) => {
                        lemma_add_unsigned_sound(prev, p, z, to_unsigned(m));
                    },
                }
            },
        }
    }
}

/// The sign that the bounds give is the sign of the polynomial at every
/// point of the ranges: if each coordinate of `x` lies in its signed range,
/// `Positive` means that the sum of the terms at `x` is positive,
/// `Negative` that it is negative, and when every term's description is
/// empty the sum is zero.
pub proof fn lemma_mahler_sign_sound(t: Seq<(Seq<u32>, Q)>, roots: Seq<RootView>, ranges: Seq<RangeModel>, x: Seq<Q>)
    requires
        forall|i: int| 0 <= i < t.len() ==> (#[trigger] t[i]).1.d > 0,
        ranges.len() == roots.len(),
        x.len() == roots.len(),
        forall|i: int| 0 <= i < x.len() ==> in_signed_range(#[trigger] x[i], ranges[i]),
    ensures
        classify(terms_sum(t, roots, ranges, t.len())) is Positive ==> terms_value(t, x, t.len()).n > 0,
        classify(terms_sum(t, roots, ranges, t.len())) is Negative ==> terms_value(t, x, t.len()).n < 0,
        terms_sum(t, roots, ranges, t.len()) is None ==> terms_value(t, x, t.len()).n == 0,
{
    lemma_terms_sound(t, roots, ranges, x, t.len());
    match terms_sum(t, roots, ranges, t.len()) {
        None => {},
        Some(u) => {
            lemma_classify_sound(terms_value(t, x, t.len()), u);
        },
    }
}

proof fn lemma_den_product(x: Q, y: Q)
    requires
        x.d > 0,
        y.d > 0,
    ensures
        qmul(x, y).d > 0,
{
    let dy = x.d * y.d;
    assert(dy > 0) by (nonlinear_arith)
        requires
            x.d > 0,
            y.d > 0,
            dy == x.d * y.d,
    ;
    lemma_qnorm_value(x.n * y.n, dy);
}

proof fn lemma_pow_one(e: nat)
    ensures
        pow(1, e) == 1,
    decreases e,
{
    reveal(pow);
    if e > 0 {
        lemma_pow_one((e - 1) as nat);
    }
}

/// Raises a signed range to the power `exp`.
pub fn pow_range(base: &SignedRange, exp: u32) -> (r: SignedRange)
    ensures
        range_model(r) == pow_model(range_model(*base), exp as nat),
{
    match base {
        SignedRange::Exact(r) => SignedRange::Exact(r.pow(exp)),
        SignedRange::Interval(interval) => {
            let abs_lower = interval.abs_lower.pow(exp);
            let abs_upper = interval.abs_upper.pow(exp);
            let is_positive = if exp % 2 == 0 {
                true
            } else {
                interval.is_positive
            };
            SignedRange::Interval(SignedInterval { is_positive, abs_lower, abs_upper })
        },
    }
}

/// Multiplies a signed range by a constant.
pub fn mul_constant_range(range: &SignedRange, constant: &Rat) -> (r: SignedRange)
    ensures
        range_model(r) == mul_const_model(range_model(*range), constant@),
{
    match range {
        SignedRange::Exact(r) => SignedRange::Exact(r.mul(constant)),
        SignedRange::Interval(interval) => {
            let is_positive = if constant.is_positive() {
                interval.is_positive
            } else if constant.is_negative() {
                !interval.is_positive
            } else {
                return SignedRange::Exact(Rat::from_i64(0));
            };
            let abs_lower = interval.abs_lower.mul(&constant.abs());
            let abs_upper = interval.abs_upper.mul(&constant.abs());
            SignedRange::Interval(SignedInterval { is_positive, abs_lower, abs_upper })
        },
    }
}

/// Multiplies two signed ranges.
pub fn mul_ranges(range1: &SignedRange, range2: &SignedRange) -> (r: SignedRange)
    ensures
        range_model(r) == mul_model(range_model(*range1), range_model(*range2)),
{
    match (range1, range2) {
        (SignedRange::Exact(r1), SignedRange::Exact(r2)) => SignedRange::Exact(r1.mul(r2)),
        (SignedRange::Exact(r), interval) => mul_constant_range(interval, r),
        (interval, SignedRange::Exact(r)) => mul_constant_range(interval, r),
        (SignedRange::Interval(interval1), SignedRange::Interval(interval2)) => {
            let abs_lower = interval1.abs_lower.mul(&interval2.abs_lower);
            let abs_upper = interval1.abs_upper.mul(&interval2.abs_upper);
            let is_positive = interval1.is_positive == interval2.is_positive;
            SignedRange::Interval(SignedInterval { is_positive, abs_lower, abs_upper })
        },
    }
}

/// The least `b` with `2^b > n`.
pub fn log2_ceil(n: &Int) -> (r: usize)
    requires
        n@ < pow2(usize::MAX as nat),
    ensures
        pow2(r as nat) > n@,
        r == 0 || pow2((r - 1) as nat) <= n@,
{
    let mut bound: usize = 0;
    let mut power_of_two = Int::from_i64(1);
    let two = Int::from_i64(2);
    proof {
        vstd::arithmetic::power2::lemma2_to64();
    }
    while !n.lt(&power_of_two)
        invariant
            power_of_two@ == pow2(bound as nat),
            power_of_two@ >= 1,
            two@ == 2,
            n@ < pow2(usize::MAX as nat),
            bound == 0 || pow2((bound - 1) as nat) <= n@,
        decreases if power_of_two@ > n@ { 0 } else { n@ - power_of_two@ + 1 },
    {
        proof {
            lemma_pow2_unfold((bound + 1) as nat);
            if bound == usize::MAX {
                assert(false);
            }
        }
        bound = bound + 1;
        let ghost old_power = power_of_two@;
        power_of_two = power_of_two.mul(&two);
        assert(power_of_two@ == 2 * old_power) by (nonlinear_arith)
            requires
                power_of_two@ == old_power * two@,
                two@ == 2,
        ;
    }
    bound
}

/// The exponent of two bounding the larger of the numerator's and the
/// denominator's absolute values; `None` for zero.
pub fn log_landau_bound_constant(constant: &Rat) -> (r: Option<usize>)
    requires
        iabs(constant@.n) < pow2(usize::MAX as nat),
        iabs(constant@.d) < pow2(usize::MAX as nat),
    ensures
        constant@.n == 0 <==> r is None,
        r matches Some(b) ==> {
            let m = if iabs(constant@.n) >= iabs(constant@.d) { iabs(constant@.n) } else { iabs(constant@.d) };
            pow2(b as nat) > m && (b == 0 || pow2((b - 1) as nat) <= m)
        },
{
    if constant.is_zero() {
        None
    } else {
        let a = constant.numer().abs();
        let b = constant.denom().abs();
        let max_coeff = if b.lt(&a) { a } else { b };
        Some(log2_ceil(&max_coeff))
    }
}

/// The sign of a polynomial at a point, as far as it could be decided.
#[derive(Clone, Copy, Debug, PartialEq, Eq, Structural)]
pub enum MahlerResult {
    Positive,
    Negative,
    Zero,
    Uncertain,
}

impl MahlerResult {
    /// Whether a value with this sign satisfies `value rel_op 0`; `None` when the
    /// sign is not known.
    pub fn satisfies(&self, rel_op: RelOp) -> (r: Option<bool>)
        ensures
            r == (match *self {
                MahlerResult::Uncertain => None,
                MahlerResult::Zero => Some(rel_op == RelOp::Eq || rel_op == RelOp::Leq || rel_op == RelOp::Geq),
                MahlerResult::Positive => Some(rel_op == RelOp::Neq || rel_op == RelOp::Gt || rel_op == RelOp::Geq),
                MahlerResult::Negative => Some(rel_op == RelOp::Neq || rel_op == RelOp::Lt || rel_op == RelOp::Leq),
            }),
    {
        match self {
            MahlerResult::Uncertain => None,
            MahlerResult::Zero => Some(matches!(rel_op, RelOp::Eq | RelOp::Leq | RelOp::Geq)),
            MahlerResult::Positive => Some(matches!(rel_op, RelOp::Neq | RelOp::Gt | RelOp::Geq)),
            MahlerResult::Negative => Some(matches!(rel_op, RelOp::Neq | RelOp::Lt | RelOp::Leq)),
        }
    }
}

// ---------------------------------------------------------------------------
// Signed ranges of roots
// ---------------------------------------------------------------------------
/// `[l, u]` after `k` bisection steps around the root of `f`.
pub open spec fn bisect_iter(f: Seq<Q>, l: Q, u: Q, k: nat) -> (Q, Q)
    decreases k,
{
    if k == 0 {
        (l, u)
    } else {
        let p = bisect_iter(f, l, u, (k - 1) as nat);
        bisect(f, p.0, p.1)
    }
}

/// Both ends lie strictly on one side of zero.
pub open spec fn sign_fixed(l: Q, u: Q) -> bool {
    (l.n > 0 && u.n > 0) || (l.n < 0 && u.n < 0)
}

/// `k` is the first number of bisection steps after which the sign is fixed.
pub open spec fn first_signed(f: Seq<Q>, l: Q, u: Q, k: nat) -> bool {
    sign_fixed(bisect_iter(f, l, u, k).0, bisect_iter(f, l, u, k).1) && forall|j: nat|
        j < k ==> !sign_fixed(#[trigger] bisect_iter(f, l, u, j).0, bisect_iter(f, l, u, j).1)
}

/// The smaller of two rationals (the first when equal).
pub open spec fn qmin(a: Q, b: Q) -> Q {
    if qlt(b, a) {
        b
    } else {
        a
    }
}

/// The larger of two rationals (the second when equal).
pub open spec fn qmax(a: Q, b: Q) -> Q {
    if qle(a, b) {
        b
    } else {
        a
    }
}

/// The signed range of an interval of fixed sign.
pub open spec fn interval_model(l: Q, u: Q) -> RangeModel {
    RangeModel::Interval(l.n > 0, qmin(qabs(l), qabs(u)), qmax(qabs(l), qabs(u)))
}

/// `m` is the signed range of the root `v`: its exact value, or its interval
/// bisected until the sign is fixed.
pub open spec fn root_signed_range(v: RootView, m: RangeModel) -> bool {
    match v.range {
        RootRange::Exact(x) => m == RangeModel::Exact(x),
        RootRange::Interval(l, u) => exists|k: nat|
            #[trigger] first_signed(v.poly, l, u, k) && m == interval_model(bisect_iter(v.poly, l, u, k).0, bisect_iter(v.poly, l, u, k).1),
    }
}

/// The root is exact, or at most `u64::MAX` bisection steps put its
/// interval on one side of zero.
pub open spec fn signed_within_limit(v: RootView) -> bool {
    match v.range {
        RootRange::Exact(_) => true,
        RootRange::Interval(l, u) => fixed_within_limit(v.poly, l, u),
    }
}

/// At most `u64::MAX` bisection steps from `(l, u)` put the interval on one
/// side of zero.
pub open spec fn fixed_within_limit(f: Seq<Q>, l: Q, u: Q) -> bool {
    exists|k: nat| k <= u64::MAX && #[trigger] sign_fixed(bisect_iter(f, l, u, k).0, bisect_iter(f, l, u, k).1)
}

/// The root's exact value, or its interval bisected until it lies on one
/// side of zero; `None` when `u64::MAX` bisection steps do not get there.
pub fn get_signed_range(root: &Root) -> (r: Option<SignedRange>)
    ensures
        r is Some <==> signed_within_limit(root@),
        r matches Some(s) ==> root_signed_range(root@, range_model(s)),
{
    match root.get_range() {
        Range::Exact(x) => Some(SignedRange::Exact(x.duplicate())),
        Range::Interval(l0, u0) => {
            let poly = root.get_poly();
            let ghost f = poly@;
            let mut lower = l0.duplicate();
            let mut upper = u0.duplicate();
            let mut k: u64 = 0;
            loop
                invariant
                    f == poly@,
                    f == root@.poly,
                    root@.range == RootRange::Interval(l0@, u0@),
                    bisect_iter(f, l0@, u0@, k as nat) == (lower@, upper@),
                    forall|j: nat| j < k ==> !sign_fixed(#[trigger] bisect_iter(f, l0@, u0@, j).0, bisect_iter(f, l0@, u0@, j).1),
                decreases u64::MAX - k,
            {
                match is_sign_consistent(&lower, &upper) {
                    Some(is_positive) => {
                        proof {
                            assert(first_signed(f, l0@, u0@, k as nat));
                            assert(sign_fixed(bisect_iter(f, l0@, u0@, k as nat).0, bisect_iter(f, l0@, u0@, k as nat).1));
                            let kk = k as nat;
                            assert(kk <= u64::MAX);
                            assert(sign_fixed(
                                bisect_iter(root@.poly, l0@, u0@, kk).0,
                                bisect_iter(root@.poly, l0@, u0@, kk).1,
                            ));
                            assert(fixed_within_limit(root@.poly, l0@, u0@));
                            assert(signed_within_limit(root@));
                        }
                        let al = lower.abs();
                        let au = upper.abs();
                        let abs_lower = if au.lt(&al) { au.duplicate() } else { al.duplicate() };
                        let abs_upper = if al.le(&au) { au } else { al };
                        return Some(SignedRange::Interval(SignedInterval { is_positive, abs_lower, abs_upper }));
                    },
                    None => {},
                }
                if k == u64::MAX {
                    proof {
                        assert(root@.range == RootRange::Interval(l0@, u0@));
                        assert forall|j: nat| j <= u64::MAX implies !#[trigger] sign_fixed(
                            bisect_iter(f, l0@, u0@, j).0,
                            bisect_iter(f, l0@, u0@, j).1,
                        ) by {
                            if j < k {
                            }
                        }
                    }
                    return None;
                }
                let (nl, nu) = refine_range(poly, &lower, &upper, false);
                lower = nl;
                upper = nu;
                k = k + 1;
            }
        },
    }
}

// ---------------------------------------------------------------------------
// Root-separation bounds
// ---------------------------------------------------------------------------
/// `b` is the least number with `2^b > x`.
pub open spec fn is_log2_ceil(x: int, b: nat) -> bool {
    pow2(b) > x && (b == 0 || pow2((b - 1) as nat) <= x)
}

/// The least `b` with `2^b > x`.
pub open spec fn log2_ceil_of(x: int) -> nat {
    choose|b: nat| #[trigger] is_log2_ceil(x, b)
}

proof fn lemma_log2_ceil_of(x: int, b: nat)
    requires
        pow2(b) > x,
        b == 0 || pow2((b - 1) as nat) <= x,
    ensures
        log2_ceil_of(x) == b,
{
    assert(is_log2_ceil(x, b));
    let c = log2_ceil_of(x);
    assert(is_log2_ceil(x, c));
    if c < b {
        if c <= (b - 1) as nat {
            if c < (b - 1) as nat {
                lemma_pow2_strictly_increases(c, (b - 1) as nat);
            }
        }
    }
    if b < c {
        if b < (c - 1) as nat {
            lemma_pow2_strictly_increases(b, (c - 1) as nat);
        }
    }
}

/// The bound for a constant: from the larger of its numerator's and
/// denominator's absolute values.
pub open spec fn constant_bound(c: Q) -> nat {
    log2_ceil_of(if iabs(c.n) >= iabs(c.d) { iabs(c.n) as int } else { iabs(c.d) as int })
}

/// The sum of the squares.
pub open spec fn sum_of_squares(s: Seq<int>) -> int
    decreases s.len(),
{
    if s.len() == 0 {
        0
    } else {
        sum_of_squares(s.drop_last()) + s.last() * s.last()
    }
}

/// `r` is the floor of the square root of `x`.
pub open spec fn is_isqrt(x: int, r: int) -> bool {
    r >= 0 && r * r <= x < (r + 1) * (r + 1)
}

/// The floor of the square root.
pub open spec fn isqrt(x: int) -> int {
    choose|r: int| #[trigger] is_isqrt(x, r)
}

/// One more than the square root of the sum of squares of the coefficients
/// with denominators cleared: the value whose logarithm bounds a root.
pub open spec fn landau_value(f: Seq<Q>) -> int {
    isqrt(sum_of_squares(scaled_numerators(f, denominators_lcm(f, f.len())))) + 1
}

proof fn lemma_sum_of_squares_nonneg(s: Seq<int>)
    ensures
        sum_of_squares(s) >= 0,
    decreases s.len(),
{
    if s.len() > 0 {
        lemma_sum_of_squares_nonneg(s.drop_last());
        assert(s.last() * s.last() >= 0) by (nonlinear_arith);
    }
}

/// Computes `landau_value` of the coefficients.
fn landau_int(coeffs: &[Rat]) -> (r: Int)
    ensures
        r@ == landau_value(rat_values(coeffs@)),
        r@ >= 1,
{
    let ints = rational_to_integer_coeffs(coeffs);
    let ghost vs = int_values(ints@);
    let mut sum = Int::from_i64(0);
    let mut i: usize = 0;
    while i < ints.len()
        invariant
            i <= ints@.len(),
            vs == int_values(ints@),
            sum@ == sum_of_squares(vs.subrange(0, i as int)),
        decreases ints@.len() - i,
    {
        proof {
            assert(vs.subrange(0, i + 1).drop_last() =~= vs.subrange(0, i as int));
            assert(vs[i as int] == ints@[i as int]@);
        }
        sum = sum.add(&ints[i].mul(&ints[i]));
        i = i + 1;
    }
    proof {
        assert(vs.subrange(0, ints@.len() as int) =~= vs);
        lemma_sum_of_squares_nonneg(vs);
    }
    let root = sum.sqrt();
    proof {
        let x = sum@;
        assert(is_isqrt(x, root@));
        let c = isqrt(x);
        assert(is_isqrt(x, c));
        if c < root@ {
            assert((c + 1) * (c + 1) <= root@ * root@) by (nonlinear_arith)
                requires
                    c + 1 <= root@,
                    c >= 0,
            ;
        }
        if root@ < c {
            assert((root@ + 1) * (root@ + 1) <= c * c) by (nonlinear_arith)
                requires
                    root@ + 1 <= c,
                    root@ >= 0,
            ;
        }
    }
    root.add(&Int::from_i64(1))
}

/// The exponent of two bounding a root of the minimal polynomial `poly`,
/// from the square root of the sum of squares of its cleared coefficients.
pub fn log_landau_bound(poly: &UnivariatePolynomial) -> (r: usize)
    requires
        landau_value(poly@) < pow2(usize::MAX as nat),
    ensures
        r == log2_ceil_of(landau_value(poly@)),
{
    let v = landau_int(poly.iter());
    let b = log2_ceil(&v);
    proof {
        lemma_log2_ceil_of(v@, b as nat);
    }
    b
}

// ---------------------------------------------------------------------------
// Signs of polynomials at sample points
// ---------------------------------------------------------------------------
/// A value described by the degree of its minimal polynomial, a bound
/// exponent and a signed range.
pub struct MahlerModel {
    pub dim: int,
    pub bound: int,
    pub range: RangeModel,
}

/// The description of a power.
pub open spec fn model_pow(m: MahlerModel, e: nat) -> MahlerModel {
    MahlerModel { dim: m.dim, bound: m.bound * e, range: pow_model(m.range, e) }
}

/// The description of a product.
pub open spec fn model_mul(a: MahlerModel, b: MahlerModel) -> MahlerModel {
    MahlerModel { dim: a.dim * b.dim, bound: a.bound * b.dim + b.bound * a.dim, range: mul_model(a.range, b.range) }
}

/// The description of a non-zero rational constant.
pub open spec fn constant_model(c: Q) -> MahlerModel {
    MahlerModel { dim: 1, bound: constant_bound(c) as int, range: RangeModel::Exact(c) }
}

/// The description of a root with signed range `m`; `None` for the root zero.
pub open spec fn root_model(v: RootView, m: RangeModel) -> Option<MahlerModel> {
    match m {
        RangeModel::Exact(x) => if x.n == 0 {
            None
        } else {
            Some(MahlerModel { dim: v.poly.len() - 1, bound: constant_bound(x) as int, range: m })
        },
        RangeModel::Interval(_, _, _) => Some(
            MahlerModel { dim: v.poly.len() - 1, bound: log2_ceil_of(landau_value(v.poly)) as int, range: m },
        ),
    }
}

/// Bounds on a value without its sign: an interval, a degree and a bound exponent.
pub struct UnsignedModel {
    pub lower: Q,
    pub upper: Q,
    pub dim: int,
    pub bound: int,
}

/// The interval of a signed description.
pub open spec fn to_unsigned(m: MahlerModel) -> UnsignedModel {
    match m.range {
        RangeModel::Exact(r) => UnsignedModel { lower: r, upper: r, dim: m.dim, bound: m.bound },
        RangeModel::Interval(p, lo, hi) => UnsignedModel {
            lower: if p { lo } else { qneg(hi) },
            upper: if p { hi } else { qneg(lo) },
            dim: m.dim,
            bound: m.bound,
        },
    }
}

/// The description of a sum.
pub open spec fn add_unsigned(a: UnsignedModel, b: UnsignedModel) -> UnsignedModel {
    UnsignedModel {
        lower: qadd(a.lower, b.lower),
        upper: qadd(a.upper, b.upper),
        dim: a.dim + b.dim,
        bound: a.bound * b.dim + b.bound * a.dim + (a.dim + b.dim),
    }
}

/// The description of the term `c x^e` after the first `j` variables;
/// `None` when the term is zero.
pub open spec fn term_acc(e: Seq<u32>, c: Q, roots: Seq<RootView>, ranges: Seq<RangeModel>, j: nat) -> Option<MahlerModel>
    decreases j,
{
    if j == 0 {
        if c.n == 0 {
            None
        } else {
            Some(constant_model(c))
        }
    } else {
        match term_acc(e, c, roots, ranges, (j - 1) as nat) {
            None => None,
            Some(acc) => if e[j - 1] == 0 {
                Some(acc)
            } else {
                match root_model(roots[j - 1], ranges[j - 1]) {
                    None => None,
                    Some(m) => Some(model_mul(acc, model_pow(m, e[j - 1] as nat))),
                }
            },
        }
    }
}

/// The number of variables paired with sample points.
pub open spec fn paired(e: Seq<u32>, roots: Seq<RootView>) -> nat {
    if e.len() <= roots.len() {
        e.len()
    } else {
        roots.len()
    }
}

/// The description of the sum of the first `k` terms; `None` when all are zero.
pub open spec fn terms_sum(t: Seq<(Seq<u32>, Q)>, roots: Seq<RootView>, ranges: Seq<RangeModel>, k: nat) -> Option<UnsignedModel>
    decreases k,
{
    if k == 0 {
        None
    } else {
        let prev = terms_sum(t, roots, ranges, (k - 1) as nat);
        let e = t[k - 1].0;
        match term_acc(e, t[k - 1].1, roots, ranges, paired(e, roots)) {
            None => prev,
            Some(m) => match prev {
                None => Some(to_unsigned(m)),
                Some(p) => Some(add_unsigned(p, to_unsigned(m))),
            },
        }
    }
}

/// The sign read from the bounds: positive or negative when the interval
/// excludes zero, zero when it is narrower than the separation bound.
pub open spec fn classify(s: Option<UnsignedModel>) -> MahlerResult {
    match s {
        None => MahlerResult::Zero,
        Some(u) => if u.lower.n > 0 {
            MahlerResult::Positive
        } else if u.upper.n < 0 {
            MahlerResult::Negative
        } else if u.bound >= 0 && qlt(qmul(qsub(u.upper, u.lower), qint(pow(2, u.bound as nat))), qint(1)) {
            MahlerResult::Zero
        } else {
            MahlerResult::Uncertain
        },
    }
}

/// The sample's signed ranges, and the polynomial's terms in decreasing order.
pub open spec fn mahler_inputs(
    ts: Seq<(Seq<u32>, Q)>,
    roots: Seq<RootView>,
    ranges: Seq<RangeModel>,
    t: Seq<(Seq<u32>, Q)>,
    perm: Seq<int>,
) -> bool {
    &&& ranges.len() == roots.len()
    &&& forall|i: int| 0 <= i < roots.len() ==> root_signed_range(roots[i], #[trigger] ranges[i])
    &&& reorders(ts, t, perm)
    &&& lex_desc(t)
}

/// A description held in machine integers.
struct SignedMahler {
    dimension: usize,
    log_landau_bound: usize,
    range: SignedRange,
}

spec fn signed_model(m: SignedMahler) -> MahlerModel {
    MahlerModel { dim: m.dimension as int, bound: m.log_landau_bound as int, range: range_model(m.range) }
}

/// Interval bounds held in machine integers.
struct UnsignedMahler {
    lower: Rat,
    upper: Rat,
    dimension: usize,
    log_landau_bound: usize,
}

spec fn unsigned_model(m: UnsignedMahler) -> UnsignedModel {
    UnsignedModel { lower: m.lower@, upper: m.upper@, dim: m.dimension as int, bound: m.log_landau_bound as int }
}

/// `log2_ceil` of `x`, when `x` has at most `usize::MAX` bits.
fn checked_log2(x: &Int) -> (r: Option<usize>)
    requires
        x@ >= 0,
    ensures
        r is None <==> x@ >= pow2(usize::MAX as nat),
        r is None ==> log2_ceil_of(x@) > usize::MAX,
        r matches Some(b) ==> b == log2_ceil_of(x@),
{
    let bits = x.bits();
    if bits > usize::MAX as u64 {
        proof {
            lemma_log2_ceil_of(x@, bits as nat);
            let m = usize::MAX as nat;
            if (bits - 1) as nat > m {
                lemma_pow2_strictly_increases(m, (bits - 1) as nat);
            }
        }
        return None;
    }
    proof {
        let m = usize::MAX as nat;
        if (bits as nat) < m {
            lemma_pow2_strictly_increases(bits as nat, m);
        }
    }
    proof {
        if (bits as nat) < usize::MAX as nat {
            lemma_pow2_strictly_increases(bits as nat, usize::MAX as nat);
        }
    }
    let b = log2_ceil(x);
    proof {
        lemma_log2_ceil_of(x@, b as nat);
    }
    Some(b)
}

/// The description of a non-zero constant; `None` for zero, `Some(None)`
/// when the bound does not fit.
fn rational_to_signed_mahler(c: &Rat) -> (r: Option<Option<SignedMahler>>)
    ensures
        r is None <==> c@.n == 0,
        r matches Some(None) ==> constant_bound(c@) > usize::MAX,
        r matches Some(Some(m)) ==> signed_model(m) == constant_model(c@),
{
    if c.is_zero() {
        return None;
    }
    let a = c.numer().abs();
    let b = c.denom().abs();
    let m = if b.lt(&a) { a } else { b };
    match checked_log2(&m) {
        None => Some(None),
        Some(bound) => Some(Some(SignedMahler { dimension: 1, log_landau_bound: bound, range: SignedRange::Exact(c.duplicate()) })),
    }
}

/// The description of a root, given its signed range; `None` for the root
/// zero, `Some(None)` when a bound does not fit.
fn get_signed_mahler(root: &Root, range: SignedRange) -> (r: Option<Option<SignedMahler>>)
    ensures
        r is None <==> root_model(root@, range_model(range)) is None,
        r matches Some(None) ==> root_model(root@, range_model(range)) matches Some(m) && m.bound > usize::MAX,
        r matches Some(Some(m)) ==> Some(signed_model(m)) == root_model(root@, range_model(range)),
{
    let poly = root.get_poly();
    let dimension = poly.degree();
    let bound = match &range {
        SignedRange::Exact(x) => {
            if x.is_zero() {
                return None;
            }
            let a = x.numer().abs();
            let b = x.denom().abs();
            let m = if b.lt(&a) { a } else { b };
            checked_log2(&m)
        },
        SignedRange::Interval(_) => {
            let v = landau_int(poly.iter());
            checked_log2(&v)
        },
    };
    match bound {
        None => Some(None),
        Some(log_landau_bound) => Some(Some(SignedMahler { dimension, log_landau_bound, range })),
    }
}

/// The description of a power; `None` when the bound does not fit.
fn pow_signed_mahler(m: &SignedMahler, exp: u32) -> (r: Option<SignedMahler>)
    ensures
        r is None <==> m.log_landau_bound * exp > usize::MAX,
        r matches Some(x) ==> signed_model(x) == model_pow(signed_model(*m), exp as nat),
{
    let range = pow_range(&m.range, exp);
    match m.log_landau_bound.checked_mul(exp as usize) {
        None => None,
        Some(b) => Some(SignedMahler { dimension: m.dimension, log_landau_bound: b, range }),
    }
}

/// The description of a product; `None` when a number does not fit.
fn mul_signed_mahler(a: &SignedMahler, b: &SignedMahler) -> (r: Option<SignedMahler>)
    ensures
        r is None <==> a.dimension * b.dimension > usize::MAX || a.log_landau_bound * b.dimension > usize::MAX
            || b.log_landau_bound * a.dimension > usize::MAX || a.log_landau_bound * b.dimension
            + b.log_landau_bound * a.dimension > usize::MAX,
        r matches Some(x) ==> signed_model(x) == model_mul(signed_model(*a), signed_model(*b)),
{
    let range = mul_ranges(&a.range, &b.range);
    let dimension = match a.dimension.checked_mul(b.dimension) {
        None => { return None; },
        Some(d) => d,
    };
    let x = match a.log_landau_bound.checked_mul(b.dimension) {
        None => { return None; },
        Some(v) => v,
    };
    let y = match b.log_landau_bound.checked_mul(a.dimension) {
        None => { return None; },
        Some(v) => v,
    };
    match x.checked_add(y) {
        None => None,
        Some(bound) => Some(SignedMahler { dimension, log_landau_bound: bound, range }),
    }
}

/// The interval of a signed description.
fn signed_to_unsigned_mahler(m: &SignedMahler) -> (r: UnsignedMahler)
    ensures
        unsigned_model(r) == to_unsigned(signed_model(*m)),
{
    match &m.range {
        SignedRange::Exact(x) => UnsignedMahler {
            lower: x.duplicate(),
            upper: x.duplicate(),
            dimension: m.dimension,
            log_landau_bound: m.log_landau_bound,
        },
        SignedRange::Interval(interval) => {
            let is_positive = interval.is_positive();
            let lower = if is_positive { interval.get_lower().duplicate() } else { interval.get_upper().neg() };
            let upper = if is_positive { interval.get_upper().duplicate() } else { interval.get_lower().neg() };
            UnsignedMahler { lower, upper, dimension: m.dimension, log_landau_bound: m.log_landau_bound }
        },
    }
}

/// The description of a sum; `None` when a number does not fit.
fn add_unsigned_mahler(a: &UnsignedMahler, b: &UnsignedMahler) -> (r: Option<UnsignedMahler>)
    ensures
        r is None <==> a.dimension + b.dimension > usize::MAX || a.log_landau_bound * b.dimension > usize::MAX
            || b.log_landau_bound * a.dimension > usize::MAX || a.log_landau_bound * b.dimension
            + b.log_landau_bound * a.dimension > usize::MAX || a.log_landau_bound * b.dimension
            + b.log_landau_bound * a.dimension + a.dimension + b.dimension > usize::MAX,
        r matches Some(x) ==> unsigned_model(x) == add_unsigned(unsigned_model(*a), unsigned_model(*b)),
{
    let dimension = match a.dimension.checked_add(b.dimension) {
        None => { return None; },
        Some(d) => d,
    };
    let x = match a.log_landau_bound.checked_mul(b.dimension) {
        None => { return None; },
        Some(v) => v,
    };
    let y = match b.log_landau_bound.checked_mul(a.dimension) {
        None => { return None; },
        Some(v) => v,
    };
    let s = match x.checked_add(y) {
        None => { return None; },
        Some(v) => v,
    };
    match s.checked_add(dimension) {
        None => None,
        Some(bound) => Some(UnsignedMahler {
            lower: a.lower.add(&b.lower),
            upper: a.upper.add(&b.upper),
            dimension,
            log_landau_bound: bound,
        }),
    }
}

/// A product of two descriptions keeps its numbers within `usize`.
pub open spec fn mul_fits(a: MahlerModel, b: MahlerModel) -> bool {
    &&& a.dim * b.dim <= usize::MAX
    &&& a.bound * b.dim <= usize::MAX
    &&& b.bound * a.dim <= usize::MAX
    &&& a.bound * b.dim + b.bound * a.dim <= usize::MAX
}

/// A sum of two descriptions keeps its numbers within `usize`.
pub open spec fn add_fits(a: UnsignedModel, b: UnsignedModel) -> bool {
    &&& a.dim + b.dim <= usize::MAX
    &&& a.bound * b.dim <= usize::MAX
    &&& b.bound * a.dim <= usize::MAX
    &&& a.bound * b.dim + b.bound * a.dim <= usize::MAX
    &&& a.bound * b.dim + b.bound * a.dim + a.dim + b.dim <= usize::MAX
}

/// Describing the term `c x^e` over the first `j` variables keeps every
/// number within `usize`.
pub open spec fn term_fits(e: Seq<u32>, c: Q, roots: Seq<RootView>, ranges: Seq<RangeModel>, j: nat) -> bool
    decreases j,
{
    if j == 0 {
        c.n == 0 || constant_bound(c) <= usize::MAX
    } else {
        term_fits(e, c, roots, ranges, (j - 1) as nat) && match term_acc(e, c, roots, ranges, (j - 1) as nat) {
            None => true,
            Some(acc) => e[j - 1] == 0 || match root_model(roots[j - 1], ranges[j - 1]) {
                None => true,
                Some(m) => m.bound * e[j - 1] <= usize::MAX && mul_fits(acc, model_pow(m, e[j - 1] as nat)),
            },
        }
    }
}

/// Describing and summing the first `k` terms keeps every number within
/// `usize`.
pub open spec fn sum_fits(t: Seq<(Seq<u32>, Q)>, roots: Seq<RootView>, ranges: Seq<RangeModel>, k: nat) -> bool
    decreases k,
{
    if k == 0 {
        true
    } else {
        let e = t[k - 1].0;
        sum_fits(t, roots, ranges, (k - 1) as nat) && term_fits(e, t[k - 1].1, roots, ranges, paired(e, roots))
            && match term_acc(e, t[k - 1].1, roots, ranges, paired(e, roots)) {
            None => true,
            Some(m) => match terms_sum(t, roots, ranges, (k - 1) as nat) {
                None => true,
                Some(p) => add_fits(p, to_unsigned(m)),
            },
        }
    }
}

/// Every root's description has a bound within `usize`.
pub open spec fn roots_fit(roots: Seq<RootView>, ranges: Seq<RangeModel>) -> bool {
    forall|i: int| 0 <= i < roots.len() ==> match #[trigger] root_model(roots[i], ranges[i]) {
        None => true,
        Some(m) => m.bound <= usize::MAX,
    }
}

/// The machine-sized numbers of the evaluation suffice: the descriptions
/// fit in `usize`, and the bound exponent of an undecided sum in `u32`.
pub open spec fn mahler_fits(t: Seq<(Seq<u32>, Q)>, roots: Seq<RootView>, ranges: Seq<RangeModel>) -> bool {
    &&& roots_fit(roots, ranges)
    &&& sum_fits(t, roots, ranges, t.len())
    &&& match terms_sum(t, roots, ranges, t.len()) {
        None => true,
        Some(u) => u.lower.n > 0 || u.upper.n < 0 || u.bound <= u32::MAX,
    }
}

proof fn lemma_term_fits_prefix(e: Seq<u32>, c: Q, roots: Seq<RootView>, ranges: Seq<RangeModel>, j: nat, z: nat)
    requires
        j <= z,
        term_fits(e, c, roots, ranges, z),
    ensures
        term_fits(e, c, roots, ranges, j),
    decreases z - j,
{
    if j < z {
        lemma_term_fits_prefix(e, c, roots, ranges, j, (z - 1) as nat);
    }
}

proof fn lemma_term_fits_after_none(e: Seq<u32>, c: Q, roots: Seq<RootView>, ranges: Seq<RangeModel>, j: nat, z: nat)
    requires
        j <= z,
        term_fits(e, c, roots, ranges, j),
        term_acc(e, c, roots, ranges, j) is None,
    ensures
        term_fits(e, c, roots, ranges, z),
    decreases z - j,
{
    if j < z {
        assert(term_acc(e, c, roots, ranges, j + 1) is None);
        lemma_term_fits_after_none(e, c, roots, ranges, j + 1, z);
    }
}

/// `o` holds the description of the root `v` with signed range `m`.
spec fn root_entry_ok(o: Option<SignedMahler>, v: RootView, m: RangeModel) -> bool {
    match o {
        None => root_model(v, m) is None,
        Some(x) => root_model(v, m) == Some(signed_model(x)),
    }
}

/// The description of the term `c x^e`; `None` when the term is zero,
/// `Some(None)` when a number does not fit.
fn term_mahler(
    e: &[u32],
    c: &Rat,
    root_ms: &Vec<Option<SignedMahler>>,
    rv: Ghost<Seq<RootView>>,
    ranges: Ghost<Seq<RangeModel>>,
) -> (r: Option<Option<SignedMahler>>)
    requires
        root_ms@.len() == rv@.len() == ranges@.len(),
        forall|q: int| 0 <= q < rv@.len() ==> root_entry_ok(#[trigger] root_ms@[q], rv@[q], ranges@[q]),
    ensures
        r is None ==> term_acc(e@, c@, rv@, ranges@, paired(e@, rv@)) is None,
        r matches Some(Some(m)) ==> term_acc(e@, c@, rv@, ranges@, paired(e@, rv@)) == Some(signed_model(m)),
        r matches Some(None) <==> !term_fits(e@, c@, rv@, ranges@, paired(e@, rv@)),
{
    let ghost z0 = paired(e@, rv@);
    let mut acc = match rational_to_signed_mahler(c) {
        None => {
            proof {
                lemma_term_acc_stays_none(e@, c@, rv@, ranges@, 0, paired(e@, rv@));
                lemma_term_fits_after_none(e@, c@, rv@, ranges@, 0, z0);
            }
            return None;
        },
        Some(None) => {
            proof {
                if term_fits(e@, c@, rv@, ranges@, z0) {
                    lemma_term_fits_prefix(e@, c@, rv@, ranges@, 0, z0);
                }
            }
            return Some(None);
        },
        Some(Some(m)) => m,
    };
    let z = if e.len() <= root_ms.len() { e.len() } else { root_ms.len() };
    let mut j: usize = 0;
    while j < z
        invariant
            z == paired(e@, rv@),
            root_ms@.len() == rv@.len() == ranges@.len(),
            forall|q: int| 0 <= q < rv@.len() ==> root_entry_ok(#[trigger] root_ms@[q], rv@[q], ranges@[q]),
            j <= z,
            term_acc(e@, c@, rv@, ranges@, j as nat) == Some(signed_model(acc)),
            term_fits(e@, c@, rv@, ranges@, j as nat),
        decreases z - j,
    {
        if e[j] != 0 {
            assert(root_entry_ok(root_ms@[j as int], rv@[j as int], ranges@[j as int]));
            match &root_ms[j] {
                None => {
                    proof {
                        assert(term_fits(e@, c@, rv@, ranges@, (j + 1) as nat));
                        lemma_term_acc_stays_none(e@, c@, rv@, ranges@, (j + 1) as nat, z as nat);
                        lemma_term_fits_after_none(e@, c@, rv@, ranges@, (j + 1) as nat, z as nat);
                    }
                    return None;
                },
                Some(m) => {
                    let p = match pow_signed_mahler(m, e[j]) {
                        None => {
                            proof {
                                assert(!term_fits(e@, c@, rv@, ranges@, (j + 1) as nat));
                                if term_fits(e@, c@, rv@, ranges@, z as nat) {
                                    lemma_term_fits_prefix(e@, c@, rv@, ranges@, (j + 1) as nat, z as nat);
                                }
                            }
                            return Some(None);
                        },
                        Some(p) => p,
                    };
                    acc = match mul_signed_mahler(&acc, &p) {
                        None => {
                            proof {
                                assert(!term_fits(e@, c@, rv@, ranges@, (j + 1) as nat));
                                if term_fits(e@, c@, rv@, ranges@, z as nat) {
                                    lemma_term_fits_prefix(e@, c@, rv@, ranges@, (j + 1) as nat, z as nat);
                                }
                            }
                            return Some(None);
                        },
                        Some(x) => x,
                    };
                },
            }
        }
        j = j + 1;
    }
    Some(Some(acc))
}

proof fn lemma_term_acc_stays_none(e: Seq<u32>, c: Q, rv: Seq<RootView>, ranges: Seq<RangeModel>, j: nat, z: nat)
    requires
        term_acc(e, c, rv, ranges, j) is None,
        j <= z,
    ensures
        term_acc(e, c, rv, ranges, z) is None,
    decreases z - j,
{
    if j < z {
        lemma_term_acc_stays_none(e, c, rv, ranges, j + 1, z);
    }
}

/// A copy of a signed range.
fn copy_range(r: &SignedRange) -> (c: SignedRange)
    ensures
        range_model(c) == range_model(*r),
{
    match r {
        SignedRange::Exact(x) => SignedRange::Exact(x.duplicate()),
        SignedRange::Interval(iv) => SignedRange::Interval(
            SignedInterval {
                is_positive: iv.is_positive,
                abs_lower: iv.abs_lower.duplicate(),
                abs_upper: iv.abs_upper.duplicate(),
            },
        ),
    }
}

/// The sign of `poly` at the sample point, decided from interval bounds on
/// each term and a root-separation bound, computed over the terms in
/// decreasing monomial order: the classification of those bounds when the
/// sign of every coordinate is fixed within `u64::MAX` bisection steps and
/// the machine-sized numbers suffice (`mahler_fits`), `Uncertain` otherwise.
pub fn evaluate_polynomial_by_mahler(poly: &Polynomial, sample: &[Root]) -> (r: MahlerResult)
    ensures
        r is Uncertain || exists|ranges: Seq<RangeModel>, t: Seq<(Seq<u32>, Q)>, perm: Seq<int>|
            #[trigger] mahler_inputs(poly.term_seq(), roots_view(sample@), ranges, t, perm) && r == classify(
                terms_sum(t, roots_view(sample@), ranges, t.len()),
            ),
        !(r is Uncertain) ==> exists|ranges: Seq<RangeModel>, t: Seq<(Seq<u32>, Q)>, perm: Seq<int>|
            #[trigger] mahler_inputs(poly.term_seq(), roots_view(sample@), ranges, t, perm) && mahler_fits(
                t,
                roots_view(sample@),
                ranges,
            ) && r == classify(terms_sum(t, roots_view(sample@), ranges, t.len())),
        r is Uncertain ==> !(forall|i: int| 0 <= i < sample@.len() ==> signed_within_limit(#[trigger] roots_view(sample@)[i]))
            || exists|ranges: Seq<RangeModel>, t: Seq<(Seq<u32>, Q)>, perm: Seq<int>|
            #[trigger] mahler_inputs(poly.term_seq(), roots_view(sample@), ranges, t, perm) && (!mahler_fits(
                t,
                roots_view(sample@),
                ranges,
            ) || classify(terms_sum(t, roots_view(sample@), ranges, t.len())) is Uncertain),
{
    let ghost rv = roots_view(sample@);
    let mut sample_ranges: Vec<SignedRange> = Vec::new();
    let ghost mut ranges: Seq<RangeModel> = Seq::empty();
    let mut i: usize = 0;
    while i < sample.len()
        invariant
            i <= sample@.len(),
            rv == roots_view(sample@),
            ranges.len() == i,
            sample_ranges@.len() == i,
            forall|q: int| 0 <= q < i ==> root_signed_range(rv[q], #[trigger] ranges[q]),
            forall|q: int| 0 <= q < i ==> range_model(#[trigger] sample_ranges@[q]) == ranges[q],
        decreases sample@.len() - i,
    {
        assert(rv[i as int] == sample@[i as int]@);
        let range = match get_signed_range(&sample[i]) {
            None => {
                assert(!signed_within_limit(rv[i as int]));
                return MahlerResult::Uncertain;
            },
            Some(x) => x,
        };
        let ghost rm = range_model(range);
        let ghost prev = sample_ranges@;
        sample_ranges.push(range);
        proof {
            let old_ranges = ranges;
            ranges = ranges.push(rm);
            assert forall|q: int| 0 <= q < i + 1 implies range_model(#[trigger] sample_ranges@[q]) == ranges[q] by {
                if q < i {
                    assert(sample_ranges@[q] == prev[q]);
                    assert(ranges[q] == old_ranges[q]);
                }
            }
            assert forall|q: int| 0 <= q < i + 1 implies root_signed_range(rv[q], #[trigger] ranges[q]) by {
                if q < i {
                    assert(ranges[q] == old_ranges[q]);
                }
            }
        }
        i = i + 1;
    }
    let terms = poly.lex_iter();
    let ghost t = terms_view(terms@);
    let ghost perm = choose|perm: Seq<int>| #[trigger] reorders(poly.term_seq(), t, perm);
    proof {
        assert(mahler_inputs(poly.term_seq(), rv, ranges, t, perm));
    }
    let mut root_ms: Vec<Option<SignedMahler>> = Vec::new();
    let mut i: usize = 0;
    while i < sample.len()
        invariant
            i <= sample@.len(),
            rv == roots_view(sample@),
            ranges.len() == sample@.len(),
            sample_ranges@.len() == sample@.len(),
            forall|q: int| 0 <= q < ranges.len() ==> range_model(#[trigger] sample_ranges@[q]) == ranges[q],
            mahler_inputs(poly.term_seq(), rv, ranges, t, perm),
            root_ms@.len() == i,
            forall|q: int| 0 <= q < i ==> root_entry_ok(#[trigger] root_ms@[q], rv[q], ranges[q]),
            forall|q: int| 0 <= q < i ==> match #[trigger] root_model(rv[q], ranges[q]) {
                None => true,
                Some(m) => m.bound <= usize::MAX,
            },
        decreases sample@.len() - i,
    {
        assert(rv[i as int] == sample@[i as int]@);
        let range = copy_range(&sample_ranges[i]);
        let entry = match get_signed_mahler(&sample[i], range) {
            None => None,
            Some(None) => {
                proof {
                    assert(!roots_fit(rv, ranges));
                    assert(!mahler_fits(t, rv, ranges));
                }
                return MahlerResult::Uncertain;
            },
            Some(Some(m)) => Some(m),
        };
        let ghost prev = root_ms@;
        root_ms.push(entry);
        proof {
            assert forall|q: int| 0 <= q < i + 1 implies root_entry_ok(#[trigger] root_ms@[q], rv[q], ranges[q]) by {
                if q < i {
                    assert(root_ms@[q] == prev[q]);
                }
            }
        }
        i = i + 1;
    }
    proof {
        assert(roots_fit(rv, ranges));
    }
    let mut total: Option<UnsignedMahler> = None;
    let mut k: usize = 0;
    while k < terms.len()
        invariant
            k <= terms@.len(),
            t == terms_view(terms@),
            rv == roots_view(sample@),
            root_ms@.len() == rv.len() == ranges.len(),
            forall|q: int| 0 <= q < rv.len() ==> root_entry_ok(#[trigger] root_ms@[q], rv[q], ranges[q]),
            mahler_inputs(poly.term_seq(), rv, ranges, t, perm),
            roots_fit(rv, ranges),
            sum_fits(t, rv, ranges, k as nat),
            match total {
                None => terms_sum(t, rv, ranges, k as nat) is None,
                Some(u) => terms_sum(t, rv, ranges, k as nat) == Some(unsigned_model(u)),
            },
        decreases terms@.len() - k,
    {
        let e = terms[k].0.as_slice();
        let c = &terms[k].1;
        proof {
            assert(t[k as int] == (e@, c@));
        }
        let ghost prev_sum = terms_sum(t, rv, ranges, k as nat);
        proof {
            assert(t.len() == terms@.len());
        }
        match term_mahler(e, c, &root_ms, Ghost(rv), Ghost(ranges)) {
            None => {
                proof {
                    lemma_sum_fits_step(t, rv, ranges, k as nat);
                }
            },
            Some(None) => {
                proof {
                    assert(!sum_fits(t, rv, ranges, (k + 1) as nat));
                    assert(t.len() == terms@.len());
                    lemma_sum_fits_prefix(t, rv, ranges, (k + 1) as nat, t.len());
                    assert(!mahler_fits(t, rv, ranges));
                }
                return MahlerResult::Uncertain;
            },
            Some(Some(m)) => {
                let u = signed_to_unsigned_mahler(&m);
                proof {
                    lemma_sum_fits_step(t, rv, ranges, k as nat);
                }
                total = match total {
                    None => Some(u),
                    Some(prev) => match add_unsigned_mahler(&prev, &u) {
                        None => {
                            proof {
                                assert(!sum_fits(t, rv, ranges, (k + 1) as nat));
                                assert(t.len() == terms@.len());
                                lemma_sum_fits_prefix(t, rv, ranges, (k + 1) as nat, t.len());
                                assert(!mahler_fits(t, rv, ranges));
                            }
                            return MahlerResult::Uncertain;
                        },
                        Some(x) => Some(x),
                    },
                };
            },
        }
        k = k + 1;
    }
    match total {
        None => MahlerResult::Zero,
        Some(u) => {
            if u.lower.is_positive() {
                MahlerResult::Positive
            } else if u.upper.is_negative() {
                MahlerResult::Negative
            } else {
                if u.log_landau_bound > u32::MAX as usize {
                    return MahlerResult::Uncertain;
                }
                let p = Int::from_i64(2).pow(u.log_landau_bound as u32);
                let w = u.upper.sub(&u.lower).mul(&Rat::from_integer(&p));
                if w.lt(&Rat::from_i64(1)) {
                    MahlerResult::Zero
                } else {
                    MahlerResult::Uncertain
                }
            }
        },
    }
}

proof fn lemma_sum_fits_step(t: Seq<(Seq<u32>, Q)>, roots: Seq<RootView>, ranges: Seq<RangeModel>, k: nat)
    requires
        k < t.len(),
    ensures
        sum_fits(t, roots, ranges, k + 1) == (sum_fits(t, roots, ranges, k) && term_fits(
            t[k as int].0,
            t[k as int].1,
            roots,
            ranges,
            paired(t[k as int].0, roots),
        ) && match term_acc(t[k as int].0, t[k as int].1, roots, ranges, paired(t[k as int].0, roots)) {
            None => true,
            Some(m) => match terms_sum(t, roots, ranges, k) {
                None => true,
                Some(p) => add_fits(p, to_unsigned(m)),
            },
        }),
        terms_sum(t, roots, ranges, k + 1) == match term_acc(
            t[k as int].0,
            t[k as int].1,
            roots,
            ranges,
            paired(t[k as int].0, roots),
        ) {
            None => terms_sum(t, roots, ranges, k),
            Some(m) => match terms_sum(t, roots, ranges, k) {
                None => Some(to_unsigned(m)),
                Some(p) => Some(add_unsigned(p, to_unsigned(m))),
            },
        },
{
}

proof fn lemma_sum_fits_prefix(t: Seq<(Seq<u32>, Q)>, roots: Seq<RootView>, ranges: Seq<RangeModel>, k: nat, n: nat)
    requires
        k <= n,
        !sum_fits(t, roots, ranges, k),
    ensures
        !sum_fits(t, roots, ranges, n),
    decreases n - k,
{
    if k < n {
        lemma_sum_fits_prefix(t, roots, ranges, k, (n - 1) as nat);
    }
}

} // verus!
