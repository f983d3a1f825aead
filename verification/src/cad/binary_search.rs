//! Refining isolating intervals by bisection and interval Newton steps, and
//! choosing sample points between separated roots.
use crate::cad::sturm::{lower_bound, range_denominators, root_shape, roots_view, upper_bound, Range, Root, RootRange, RootView};
use crate::cad::univariate::{horner, UnivariatePolynomial};
use crate::cad::mahler::lemma_qle_norm;
use crate::nonempty::rat_values;
use crate::number::{
    iabs, lemma_q_order_trans, lemma_qcanon_unique, lemma_qnorm_value, qabs, qadd, qcanon, qdiv, qint, qle, qlt, qmul, qneg,
    qnorm, qsub, Q, Rat,
};
use vstd::prelude::*;

verus! {

/// The state of the interval evaluation of the derivative after the
/// coefficients `1..=k`: bounds of the derivative, and the sign and bounds of
/// the current power of `x`.
pub struct DerivativeBounds {
    pub lower: Q,
    pub upper: Q,
    pub pow_positive: bool,
    pub pow_lower: Q,
    pub pow_upper: Q,
}

/// Interval evaluation of the derivative of `cs` on the interval with
/// absolute bounds `[a, b]` on the positive (`is_positive`) or negative side,
/// after the coefficients `1..=k`.
pub open spec fn derivative_bounds(cs: Seq<Q>, k: nat, is_positive: bool, a: Q, b: Q) -> DerivativeBounds
    decreases k,
{
    if k == 0 {
        DerivativeBounds { lower: qint(0), upper: qint(0), pow_positive: true, pow_lower: qint(1), pow_upper: qint(1) }
    } else {
        let st = derivative_bounds(cs, (k - 1) as nat, is_positive, a, b);
        let c = cs[k as int];
        let w = qmul(qint(k as int), qabs(c));
        let same = st.pow_positive == (c.n > 0);
        DerivativeBounds {
            lower: if same { qadd(st.lower, qmul(w, st.pow_lower)) } else { qsub(st.lower, qmul(w, st.pow_upper)) },
            upper: if same { qadd(st.upper, qmul(w, st.pow_upper)) } else { qsub(st.upper, qmul(w, st.pow_lower)) },
            pow_positive: if is_positive { st.pow_positive } else { !st.pow_positive },
            pow_lower: qmul(st.pow_lower, a),
            pow_upper: qmul(st.pow_upper, b),
        }
    }
}

/// `(lower + upper) / 2`.
pub open spec fn midpoint(lower: Q, upper: Q) -> Q {
    qdiv(qadd(lower, upper), qint(2))
}

/// One interval Newton step for the root of `cs` in `[lower, upper]`:
/// `None` when the interval or the derivative's interval contains zero.
pub open spec fn newton_step(cs: Seq<Q>, lower: Q, upper: Q) -> Option<(Q, Q)> {
    if !(lower.n > 0) && !(upper.n < 0) {
        None
    } else {
        let is_positive = lower.n > 0;
        let a = if is_positive { lower } else { qneg(upper) };
        let b = if is_positive { upper } else { qneg(lower) };
        let st = derivative_bounds(cs, (cs.len() - 1) as nat, is_positive, a, b);
        if !(st.lower.n > 0) && !(st.upper.n < 0) {
            None
        } else {
            let der_positive = st.lower.n > 0;
            let dal = if der_positive { st.lower } else { qneg(st.upper) };
            let dau = if der_positive { st.upper } else { qneg(st.lower) };
            if dau.n == 0 {
                None
            } else {
                let m = midpoint(lower, upper);
                let e = horner(cs, m);
                let delta_lower = qdiv(qabs(e), dau);
                let delta_upper = qdiv(qabs(e), dal);
                if (e.n > 0) == der_positive {
                    Some((qsub(m, delta_upper), qsub(m, delta_lower)))
                } else {
                    Some((qadd(m, delta_lower), qadd(m, delta_upper)))
                }
            }
        }
    }
}

/// A product or sum of fractions with positive denominators has a positive
/// denominator.
proof fn lemma_den_mul_add(a: Q, b: Q)
    requires
        a.d > 0,
        b.d > 0,
    ensures
        qmul(a, b).d > 0,
        qadd(a, b).d > 0,
        qsub(a, b).d > 0,
{
    let d = a.d * b.d;
    assert(d > 0) by (nonlinear_arith)
        requires
            a.d > 0,
            b.d > 0,
            d == a.d * b.d,
    ;
    lemma_qnorm_value(a.n * b.n, d);
    lemma_qnorm_value(a.n * b.d + b.n * a.d, d);
    lemma_qnorm_value(a.n * b.d - b.n * a.d, d);
}

/// The value of a polynomial with positive denominators at a point with a
/// positive denominator has a positive denominator.
proof fn lemma_horner_den(s: Seq<Q>, x: Q)
    requires
        x.d > 0,
        forall|i: int| 0 <= i < s.len() ==> (#[trigger] s[i]).d > 0,
    ensures
        horner(s, x).d > 0,
    decreases s.len(),
{
    if s.len() > 0 {
        assert forall|i: int| 0 <= i < s.drop_first().len() implies (#[trigger] s.drop_first()[i]).d > 0 by {
            assert(s.drop_first()[i] == s[i + 1]);
        }
        lemma_horner_den(s.drop_first(), x);
        lemma_den_mul_add(horner(s.drop_first(), x), x);
        lemma_den_mul_add(qmul(horner(s.drop_first(), x), x), s[0]);
    }
}

/// The interval evaluation of the derivative keeps positive denominators.
proof fn lemma_derivative_bounds_den(cs: Seq<Q>, k: nat, is_positive: bool, a: Q, b: Q)
    requires
        a.d > 0,
        b.d > 0,
        forall|i: int| 0 <= i < cs.len() ==> (#[trigger] cs[i]).d > 0,
    ensures
        ({
            let st = derivative_bounds(cs, k, is_positive, a, b);
            k < cs.len() || k == 0 ==> st.lower.d > 0 && st.upper.d > 0 && st.pow_lower.d > 0 && st.pow_upper.d > 0
        }),
    decreases k,
{
    if k > 0 && k < cs.len() {
        lemma_derivative_bounds_den(cs, (k - 1) as nat, is_positive, a, b);
        let st = derivative_bounds(cs, (k - 1) as nat, is_positive, a, b);
        let c = cs[k as int];
        assert(c.d > 0);
        lemma_den_mul_add(qint(k as int), qabs(c));
        let w = qmul(qint(k as int), qabs(c));
        lemma_den_mul_add(w, st.pow_lower);
        lemma_den_mul_add(w, st.pow_upper);
        lemma_den_mul_add(st.lower, qmul(w, st.pow_lower));
        lemma_den_mul_add(st.lower, qmul(w, st.pow_upper));
        lemma_den_mul_add(st.upper, qmul(w, st.pow_upper));
        lemma_den_mul_add(st.upper, qmul(w, st.pow_lower));
        lemma_den_mul_add(st.pow_lower, a);
        lemma_den_mul_add(st.pow_upper, b);
    }
}

/// `e / d` is positive for non-zero `e` and positive `d`.
proof fn lemma_abs_quotient_positive(e: Q, d: Q)
    requires
        e.n != 0,
        e.d > 0,
        d.n > 0,
        d.d > 0,
    ensures
        qdiv(qabs(e), d).n > 0,
        qdiv(qabs(e), d).d > 0,
{
    let a = qabs(e);
    assert(a.n > 0);
    let nn = a.n * d.d;
    let dd = a.d * d.n;
    assert(nn > 0 && dd > 0) by (nonlinear_arith)
        requires
            a.n > 0,
            d.d > 0,
            a.d > 0,
            d.n > 0,
            nn == a.n * d.d,
            dd == a.d * d.n,
    ;
    crate::number::lemma_qnorm_sign(nn, dd);
    lemma_qnorm_value(nn, dd);
}

/// Subtracting a positive fraction moves below, adding moves above.
proof fn lemma_shift(m: Q, x: Q)
    requires
        m.d > 0,
        x.d > 0,
        x.n > 0,
    ensures
        qlt(qsub(m, x), m),
        qlt(m, qadd(m, x)),
{
    let d = m.d * x.d;
    assert(d > 0) by (nonlinear_arith)
        requires
            m.d > 0,
            x.d > 0,
            d == m.d * x.d,
    ;
    lemma_qnorm_value(m.n * x.d - x.n * m.d, d);
    lemma_qnorm_value(m.n * x.d + x.n * m.d, d);
    let a = qsub(m, x);
    let b = qadd(m, x);
    assert(a.n * m.d < m.n * a.d) by (nonlinear_arith)
        requires
            a.n * d == (m.n * x.d - x.n * m.d) * a.d,
            d == m.d * x.d,
            x.n > 0,
            m.d > 0,
            x.d > 0,
            a.d > 0,
    {
        assert(a.n * m.d * x.d == m.n * a.d * x.d - x.n * m.d * a.d);
        assert(x.n * m.d * a.d > 0);
    }
    assert(m.n * b.d < b.n * m.d) by (nonlinear_arith)
        requires
            b.n * d == (m.n * x.d + x.n * m.d) * b.d,
            d == m.d * x.d,
            x.n > 0,
            m.d > 0,
            x.d > 0,
            b.d > 0,
    {
        assert(b.n * m.d * x.d == m.n * b.d * x.d + x.n * m.d * b.d);
        assert(x.n * m.d * b.d > 0);
    }
}

/// The interval Newton step looks for the root on the side of the midpoint
/// towards which `f` falls to zero. Take `e = f(m)` at the midpoint `m`
/// and the sign of the derivative, which its interval bounds fix on the whole
/// interval. When `e` is not zero and has the derivative's sign (`f` above
/// zero and increasing, or below zero and decreasing), the root lies below
/// `m`: the new interval starts below `m`. Otherwise it lies above `m`: the
/// new interval ends above `m`.
pub proof fn lemma_newton_direction(cs: Seq<Q>, lower: Q, upper: Q)
    requires
        lower.d > 0,
        upper.d > 0,
        forall|i: int| 0 <= i < cs.len() ==> (#[trigger] cs[i]).d > 0,
    ensures
        newton_step(cs, lower, upper) matches Some(p) ==> {
            let m = midpoint(lower, upper);
            let e = horner(cs, m);
            let is_positive = lower.n > 0;
            let st = derivative_bounds(
                cs,
                (cs.len() - 1) as nat,
                is_positive,
                if is_positive { lower } else { qneg(upper) },
                if is_positive { upper } else { qneg(lower) },
            );
            let increasing = st.lower.n > 0;
            e.n != 0 ==> if (e.n > 0) == increasing {
                qlt(p.0, m)
            } else {
                qlt(m, p.1)
            }
        },
{
    if newton_step(cs, lower, upper) is Some {
        let m = midpoint(lower, upper);
        lemma_den_mul_add(lower, upper);
        let s2 = qadd(lower, upper);
        lemma_qnorm_value(s2.n * 1, s2.d * 2);
        assert(m.d > 0);
        lemma_horner_den(cs, m);
        let e = horner(cs, m);
        let is_positive = lower.n > 0;
        let a = if is_positive { lower } else { qneg(upper) };
        let b = if is_positive { upper } else { qneg(lower) };
        let st = derivative_bounds(cs, (cs.len() - 1) as nat, is_positive, a, b);
        let der_positive = st.lower.n > 0;
        let dal = if der_positive { st.lower } else { qneg(st.upper) };
        if e.n != 0 {
            assert(dal.n > 0);
            lemma_derivative_bounds_den(cs, (cs.len() - 1) as nat, is_positive, a, b);
            lemma_abs_quotient_positive(e, dal);
            lemma_shift(m, qdiv(qabs(e), dal));
        }
    }
}

/// `(a b)(c d) = (a c)(b d)`.
proof fn lemma_mul_regroup(a: int, b: int, c: int, d: int)
    ensures
        (a * b) * (c * d) == (a * c) * (b * d),
{
    assert((a * b) * (c * d) == (a * c) * (b * d)) by (nonlinear_arith);
}

/// `(x + y) z = x z + y z` and `(x - y) z = x z - y z`.
proof fn lemma_distrib_sum(x: int, y: int, z: int)
    ensures
        (x + y) * z == x * z + y * z,
        (x - y) * z == x * z - y * z,
{
    assert((x + y) * z == x * z + y * z) by (nonlinear_arith);
    assert((x - y) * z == x * z - y * z) by (nonlinear_arith);
}

/// Sums and differences keep the order: `x1 + y1 <= x2 + y2` when
/// `x1 <= x2` and `y1 <= y2`, and `x1 - y1 <= x2 - y2` when `x1 <= x2` and
/// `y2 <= y1`.
proof fn lemma_qle_add_sub(x1: Q, x2: Q, y1: Q, y2: Q)
    requires
        x1.d > 0,
        x2.d > 0,
        y1.d > 0,
        y2.d > 0,
        qle(x1, x2),
    ensures
        qle(y1, y2) ==> qle(qadd(x1, y1), qadd(x2, y2)),
        qle(y2, y1) ==> qle(qsub(x1, y1), qsub(x2, y2)),
{
    let d1 = x1.d * y1.d;
    let d2 = x2.d * y2.d;
    assert(d1 > 0 && d2 > 0) by (nonlinear_arith)
        requires
            x1.d > 0,
            x2.d > 0,
            y1.d > 0,
            y2.d > 0,
            d1 == x1.d * y1.d,
            d2 == x2.d * y2.d,
    ;
    let py = y1.d * y2.d;
    let px = x1.d * x2.d;
    assert(py > 0 && px > 0) by (nonlinear_arith)
        requires
            x1.d > 0,
            x2.d > 0,
            y1.d > 0,
            y2.d > 0,
            py == y1.d * y2.d,
            px == x1.d * x2.d,
    ;
    assert((x1.n * x2.d) * py <= (x2.n * x1.d) * py) by (nonlinear_arith)
        requires
            x1.n * x2.d <= x2.n * x1.d,
            py > 0,
    ;
    if qle(y1, y2) {
        assert((y1.n * y2.d) * px <= (y2.n * y1.d) * px) by (nonlinear_arith)
            requires
                y1.n * y2.d <= y2.n * y1.d,
                px > 0,
        ;
        lemma_distrib_sum(x1.n * y1.d, y1.n * x1.d, d2);
        lemma_mul_regroup(x1.n, y1.d, x2.d, y2.d);
        lemma_mul_regroup(y1.n, x1.d, y2.d, x2.d);
        assert(x2.d * y2.d == y2.d * x2.d) by (nonlinear_arith);
        assert(x1.d * x2.d == px);
        assert((x1.n * y1.d + y1.n * x1.d) * d2 == (x1.n * x2.d) * py + (y1.n * y2.d) * px);
        lemma_distrib_sum(x2.n * y2.d, y2.n * x2.d, d1);
        lemma_mul_regroup(x2.n, y2.d, x1.d, y1.d);
        assert((y2.n * x2.d) * (x1.d * y1.d) == (y2.n * y1.d) * (x2.d * x1.d)) by (nonlinear_arith);
        assert(y2.d * y1.d == py) by (nonlinear_arith)
            requires
                py == y1.d * y2.d,
        ;
        assert(x2.d * x1.d == px) by (nonlinear_arith)
            requires
                px == x1.d * x2.d,
        ;
        assert((x2.n * y2.d + y2.n * x2.d) * d1 == (x2.n * x1.d) * py + (y2.n * y1.d) * px);
        lemma_qle_norm(x1.n * y1.d + y1.n * x1.d, d1, x2.n * y2.d + y2.n * x2.d, d2);
    }
    if qle(y2, y1) {
        assert((y2.n * y1.d) * px <= (y1.n * y2.d) * px) by (nonlinear_arith)
            requires
                y2.n * y1.d <= y1.n * y2.d,
                px > 0,
        ;
        lemma_distrib_sum(x1.n * y1.d, y1.n * x1.d, d2);
        lemma_mul_regroup(x1.n, y1.d, x2.d, y2.d);
        lemma_mul_regroup(y1.n, x1.d, y2.d, x2.d);
        assert(x2.d * y2.d == y2.d * x2.d) by (nonlinear_arith);
        assert(x1.d * x2.d == px);
        assert((x1.n * y1.d - y1.n * x1.d) * d2 == (x1.n * x2.d) * py - (y1.n * y2.d) * px);
        lemma_distrib_sum(x2.n * y2.d, y2.n * x2.d, d1);
        lemma_mul_regroup(x2.n, y2.d, x1.d, y1.d);
        assert((y2.n * x2.d) * (x1.d * y1.d) == (y2.n * y1.d) * (x2.d * x1.d)) by (nonlinear_arith);
        assert(y2.d * y1.d == py) by (nonlinear_arith)
            requires
                py == y1.d * y2.d,
        ;
        assert(x2.d * x1.d == px) by (nonlinear_arith)
            requires
                px == x1.d * x2.d,
        ;
        assert((x2.n * y2.d - y2.n * x2.d) * d1 == (x2.n * x1.d) * py - (y2.n * y1.d) * px);
        lemma_qle_norm(x1.n * y1.d - y1.n * x1.d, d1, x2.n * y2.d - y2.n * x2.d, d2);
    }
}

/// Products of non-negative values keep the order: `x1 y1 <= x2 y2` when
/// `0 <= x1 <= x2` and `0 <= y1 <= y2`; the product is not negative.
proof fn lemma_qle_mul(x1: Q, x2: Q, y1: Q, y2: Q)
    requires
        x1.d > 0,
        x2.d > 0,
        y1.d > 0,
        y2.d > 0,
        x1.n >= 0,
        y1.n >= 0,
        qle(x1, x2),
        qle(y1, y2),
    ensures
        qle(qmul(x1, y1), qmul(x2, y2)),
        qmul(x1, y1).n >= 0,
        qmul(x1, y1).d > 0,
{
    let d1 = x1.d * y1.d;
    let d2 = x2.d * y2.d;
    assert(d1 > 0 && d2 > 0) by (nonlinear_arith)
        requires
            x1.d > 0,
            x2.d > 0,
            y1.d > 0,
            y2.d > 0,
            d1 == x1.d * y1.d,
            d2 == x2.d * y2.d,
    ;
    let a = x1.n * x2.d;
    let b = x2.n * x1.d;
    let c = y1.n * y2.d;
    let e = y2.n * y1.d;
    assert(0 <= a && 0 <= c) by (nonlinear_arith)
        requires
            x1.n >= 0,
            y1.n >= 0,
            x2.d > 0,
            y2.d > 0,
            a == x1.n * x2.d,
            c == y1.n * y2.d,
    ;
    assert(a * c <= b * e) by (nonlinear_arith)
        requires
            0 <= a <= b,
            0 <= c <= e,
    ;
    assert((x1.n * y1.n) * d2 == a * c) by (nonlinear_arith)
        requires
            d2 == x2.d * y2.d,
            a == x1.n * x2.d,
            c == y1.n * y2.d,
    ;
    assert((x2.n * y2.n) * d1 == b * e) by (nonlinear_arith)
        requires
            d1 == x1.d * y1.d,
            b == x2.n * x1.d,
            e == y2.n * y1.d,
    ;
    lemma_qle_norm(x1.n * y1.n, d1, x2.n * y2.n, d2);
    assert(x1.n * y1.n >= 0) by (nonlinear_arith)
        requires
            x1.n >= 0,
            y1.n >= 0,
    ;
    crate::number::lemma_qnorm_sign(x1.n * y1.n, d1);
    lemma_qnorm_value(x1.n * y1.n, d1);
}

/// On absolute bounds `0 <= a <= b`, the interval evaluation of the
/// derivative gives a proper interval, and the bounds on the powers stay
/// ordered and not negative.
proof fn lemma_derivative_bounds_ordered(cs: Seq<Q>, k: nat, is_positive: bool, a: Q, b: Q)
    requires
        a.d > 0,
        b.d > 0,
        a.n >= 0,
        qle(a, b),
        forall|i: int| 0 <= i < cs.len() ==> (#[trigger] cs[i]).d > 0,
        k < cs.len() || k == 0,
    ensures
        qle(derivative_bounds(cs, k, is_positive, a, b).lower, derivative_bounds(cs, k, is_positive, a, b).upper),
        derivative_bounds(cs, k, is_positive, a, b).pow_lower.n >= 0,
        qle(derivative_bounds(cs, k, is_positive, a, b).pow_lower, derivative_bounds(cs, k, is_positive, a, b).pow_upper),
    decreases k,
{
    lemma_derivative_bounds_den(cs, k, is_positive, a, b);
    if k > 0 {
        lemma_derivative_bounds_ordered(cs, (k - 1) as nat, is_positive, a, b);
        lemma_derivative_bounds_den(cs, (k - 1) as nat, is_positive, a, b);
        let st = derivative_bounds(cs, (k - 1) as nat, is_positive, a, b);
        let c = cs[k as int];
        assert(c.d > 0);
        let ki = qint(k as int);
        let ac = qabs(c);
        assert(qle(ki, ki));
        assert(qle(ac, ac));
        lemma_qle_mul(ki, ki, ac, ac);
        let w = qmul(ki, ac);
        assert(qle(w, w));
        lemma_qle_mul(w, w, st.pow_lower, st.pow_upper);
        lemma_den_mul_add(w, st.pow_upper);
        let wl = qmul(w, st.pow_lower);
        let wu = qmul(w, st.pow_upper);
        lemma_qle_add_sub(st.lower, st.upper, wl, wu);
        lemma_qle_add_sub(st.lower, st.upper, wu, wl);
        lemma_qle_mul(st.pow_lower, st.pow_upper, a, b);
    }
}

/// `x` to the power `k`, by repeated products.
pub open spec fn xpow(x: Q, k: nat) -> Q
    decreases k,
{
    if k == 0 {
        qint(1)
    } else {
        qmul(xpow(x, (k - 1) as nat), x)
    }
}

/// The derivative of `cs` at `x` over the coefficients `1..=k`: the sum of
/// `i cs[i] x^(i - 1)`.
pub open spec fn derivative_value(cs: Seq<Q>, k: nat, x: Q) -> Q
    decreases k,
{
    if k == 0 {
        qint(0)
    } else {
        qadd(derivative_value(cs, (k - 1) as nat, x), qmul(qmul(qint(k as int), cs[k as int]), xpow(x, (k - 1) as nat)))
    }
}

/// `a` and `b` are the same rational.
spec fn same_value(a: Q, b: Q) -> bool {
    a.n * b.d == b.n * a.d
}

proof fn lemma_same_value_trans(a: Q, b: Q, c: Q)
    requires
        a.d > 0,
        b.d > 0,
        c.d > 0,
        same_value(a, b),
        same_value(b, c),
    ensures
        same_value(a, c),
{
    assert(a.n * c.d == c.n * a.d) by (nonlinear_arith)
        requires
            a.n * b.d == b.n * a.d,
            b.n * c.d == c.n * b.d,
            b.d > 0,
    {
        assert((a.n * c.d) * b.d == (a.n * b.d) * c.d);
        assert((a.n * b.d) * c.d == (b.n * c.d) * a.d);
        assert((b.n * c.d) * a.d == (c.n * a.d) * b.d);
    }
}

/// The order is a property of the values.
proof fn lemma_qle_same_value(l: Q, y: Q, y2: Q, h: Q)
    requires
        l.d > 0,
        y.d > 0,
        y2.d > 0,
        h.d > 0,
        same_value(y, y2),
    ensures
        qle(l, y) ==> qle(l, y2),
        qle(y, h) ==> qle(y2, h),
{
    if qle(l, y) {
        assert(l.n * y2.d <= y2.n * l.d) by (nonlinear_arith)
            requires
                l.n * y.d <= y.n * l.d,
                y.n * y2.d == y2.n * y.d,
                y.d > 0,
                y2.d > 0,
                l.d > 0,
        {
            assert((l.n * y2.d) * y.d == (l.n * y.d) * y2.d);
            assert((l.n * y.d) * y2.d <= (y.n * l.d) * y2.d);
            assert((y.n * l.d) * y2.d == (y2.n * l.d) * y.d);
        }
    }
    if qle(y, h) {
        assert(y2.n * h.d <= h.n * y2.d) by (nonlinear_arith)
            requires
                y.n * h.d <= h.n * y.d,
                y.n * y2.d == y2.n * y.d,
                y.d > 0,
                y2.d > 0,
                h.d > 0,
        {
            assert((y2.n * h.d) * y.d == (y.n * h.d) * y2.d);
            assert((y.n * h.d) * y2.d <= (h.n * y.d) * y2.d);
        }
    }
}

/// The absolute value of a product is the product of the absolute values.
proof fn lemma_abs_mul_value(a: Q, b: Q)
    requires
        a.d > 0,
        b.d > 0,
    ensures
        qmul(a, b).d > 0,
        qmul(qabs(a), qabs(b)).d > 0,
        same_value(qabs(qmul(a, b)), qmul(qabs(a), qabs(b))),
        qmul(a, b).n > 0 <==> a.n * b.n > 0,
        qmul(a, b).n < 0 <==> a.n * b.n < 0,
{
    let d = a.d * b.d;
    assert(d > 0) by (nonlinear_arith)
        requires
            a.d > 0,
            b.d > 0,
            d == a.d * b.d,
    ;
    let n1 = a.n * b.n;
    let n2: int = (iabs(a.n) as int) * (iabs(b.n) as int);
    assert(n2 == iabs(n1)) by (nonlinear_arith)
        requires
            n1 == a.n * b.n,
            n2 == (iabs(a.n) as int) * (iabs(b.n) as int),
            iabs(a.n) == if a.n < 0 { -a.n } else { a.n },
            iabs(b.n) == if b.n < 0 { -b.n } else { b.n },
            iabs(n1) == if n1 < 0 { -n1 } else { n1 },
    ;
    let r = qmul(a, b);
    let s = qmul(qabs(a), qabs(b));
    lemma_qnorm_value(n1, d);
    lemma_qnorm_value(n2, d);
    crate::number::lemma_qnorm_sign(n1, d);
    assert(iabs(r.n) * s.d == s.n * r.d) by (nonlinear_arith)
        requires
            r.n * d == n1 * r.d,
            s.n * d == n2 * s.d,
            n2 == iabs(n1),
            iabs(r.n) == if r.n < 0 { -r.n } else { r.n },
            iabs(n1) == if n1 < 0 { -n1 } else { n1 },
            r.n > 0 <==> n1 > 0,
            r.n < 0 <==> n1 < 0,
            d > 0,
            r.d > 0,
            s.d > 0,
    {
        assert(iabs(r.n) * d == n2 * r.d);
        assert((iabs(r.n) * s.d) * d == (iabs(r.n) * d) * s.d);
        assert((n2 * r.d) * s.d == (s.n * d) * r.d);
    }
}

/// Multiplying equal values by the same value gives equal values.
proof fn lemma_mul_same_value(a: Q, a2: Q, b: Q)
    requires
        a.d > 0,
        a2.d > 0,
        b.d > 0,
        same_value(a, a2),
    ensures
        same_value(qmul(a, b), qmul(a2, b)),
        qmul(a, b).d > 0,
        qmul(a2, b).d > 0,
{
    let d1 = a.d * b.d;
    let d2 = a2.d * b.d;
    assert(d1 > 0 && d2 > 0) by (nonlinear_arith)
        requires
            a.d > 0,
            a2.d > 0,
            b.d > 0,
            d1 == a.d * b.d,
            d2 == a2.d * b.d,
    ;
    let r = qmul(a, b);
    let s = qmul(a2, b);
    lemma_qnorm_value(a.n * b.n, d1);
    lemma_qnorm_value(a2.n * b.n, d2);
    assert((a.n * b.n) * d2 == (a2.n * b.n) * d1) by (nonlinear_arith)
        requires
            a.n * a2.d == a2.n * a.d,
            d1 == a.d * b.d,
            d2 == a2.d * b.d,
    {
        assert((a.n * b.n) * (a2.d * b.d) == (a.n * a2.d) * (b.n * b.d));
        assert((a2.n * b.n) * (a.d * b.d) == (a2.n * a.d) * (b.n * b.d));
    }
    let n1 = a.n * b.n;
    let n2 = a2.n * b.n;
    let pp = d1 * d2;
    assert(pp > 0) by (nonlinear_arith)
        requires
            d1 > 0,
            d2 > 0,
            pp == d1 * d2,
    ;
    let lhs = (r.n * s.d) * pp;
    let rhs = (s.n * r.d) * pp;
    assert(lhs == (r.n * d1) * (s.d * d2)) by (nonlinear_arith)
        requires
            lhs == (r.n * s.d) * pp,
            pp == d1 * d2,
    ;
    assert((r.n * d1) * (s.d * d2) == (n1 * r.d) * (s.d * d2));
    assert((n1 * r.d) * (s.d * d2) == (n1 * d2) * (r.d * s.d)) by (nonlinear_arith);
    assert(rhs == (s.n * d2) * (r.d * d1)) by (nonlinear_arith)
        requires
            rhs == (s.n * r.d) * pp,
            pp == d1 * d2,
    ;
    assert((s.n * d2) * (r.d * d1) == (n2 * s.d) * (r.d * d1));
    assert((n2 * s.d) * (r.d * d1) == (n2 * d1) * (r.d * s.d)) by (nonlinear_arith);
    assert(lhs == rhs);
    assert(r.n * s.d == s.n * r.d) by (nonlinear_arith)
        requires
            (r.n * s.d) * pp == (s.n * r.d) * pp,
            pp > 0,
    ;
}

/// Adding `y` is subtracting its negation.
proof fn lemma_add_is_sub_neg(x: Q, y: Q)
    ensures
        qadd(x, y) == qsub(x, qneg(y)),
{
    assert(x.n * y.d + y.n * x.d == x.n * y.d - (-y.n) * x.d) by (nonlinear_arith);
}

/// Interval evaluation of the derivative is sound: at a point `x` whose
/// absolute value lies in `[a, b]` and whose sign is the side asked for,
/// the derivative over the coefficients `1..=k` lies between the lower and
/// upper bounds that `derivative_bounds` gives, and `x^k` has the sign and
/// lies within the bounds on the power.
pub proof fn lemma_derivative_bounds_sound(cs: Seq<Q>, k: nat, is_positive: bool, a: Q, b: Q, x: Q)
    requires
        a.d > 0,
        b.d > 0,
        a.n >= 0,
        x.d > 0,
        x.n != 0,
        is_positive <==> x.n > 0,
        qle(a, qabs(x)),
        qle(qabs(x), b),
        forall|i: int| 0 <= i < cs.len() ==> (#[trigger] cs[i]).d > 0,
        k < cs.len() || k == 0,
    ensures
        ({
            let st = derivative_bounds(cs, k, is_positive, a, b);
            let p = xpow(x, k);
            let dv = derivative_value(cs, k, x);
            &&& p.d > 0
            &&& p.n != 0
            &&& st.pow_positive == (p.n > 0)
            &&& st.pow_lower.n >= 0
            &&& qle(st.pow_lower, qabs(p))
            &&& qle(qabs(p), st.pow_upper)
            &&& dv.d > 0
            &&& qle(st.lower, dv)
            &&& qle(dv, st.upper)
        }),
    decreases k,
{
    lemma_derivative_bounds_den(cs, k, is_positive, a, b);
    if k > 0 {
        lemma_derivative_bounds_sound(cs, (k - 1) as nat, is_positive, a, b, x);
        lemma_derivative_bounds_den(cs, (k - 1) as nat, is_positive, a, b);
        let st = derivative_bounds(cs, (k - 1) as nat, is_positive, a, b);
        let p = xpow(x, (k - 1) as nat);
        let dv = derivative_value(cs, (k - 1) as nat, x);
        let c = cs[k as int];
        assert(c.d > 0);
        let ki = qint(k as int);
        let ac = qabs(c);
        let w = qmul(ki, ac);
        let kc = qmul(ki, c);
        let t = qmul(kc, p);
        let ap = qabs(p);
        // |k c| is w, |t| is w |p|.
        lemma_abs_mul_value(ki, c);
        assert(qabs(ki) == ki);
        lemma_abs_mul_value(kc, p);
        lemma_mul_same_value(qabs(kc), w, ap);
        lemma_same_value_trans(qabs(t), qmul(qabs(kc), ap), qmul(w, ap));
        // w pl <= w |p| <= w pu.
        assert(qle(ki, ki));
        assert(qle(ac, ac));
        lemma_qle_mul(ki, ki, ac, ac);
        assert(qle(w, w));
        lemma_qle_mul(w, w, st.pow_lower, ap);
        lemma_qle_mul(w, w, ap, st.pow_upper);
        lemma_den_mul_add(w, st.pow_upper);
        let wl = qmul(w, st.pow_lower);
        let wu = qmul(w, st.pow_upper);
        let wp = qmul(w, ap);
        assert(ki.n * c.n > 0 <==> c.n > 0) by (nonlinear_arith)
            requires
                ki.n > 0,
        ;
        assert(ki.n * c.n < 0 <==> c.n < 0) by (nonlinear_arith)
            requires
                ki.n > 0,
        ;
        assert(kc.n * p.n > 0 <==> (kc.n > 0 && p.n > 0) || (kc.n < 0 && p.n < 0)) by (nonlinear_arith);
        assert(kc.n * p.n < 0 <==> (kc.n > 0 && p.n < 0) || (kc.n < 0 && p.n > 0)) by (nonlinear_arith);
        lemma_den_mul_add(dv, t);
        let same = st.pow_positive == (c.n > 0);
        if same {
            assert(t.n >= 0);
            assert(qabs(t) == t);
            lemma_qle_same_value(wl, wp, t, wu);
            lemma_qle_same_value(wl, qabs(t), wp, wu);
            assert(same_value(wp, t)) by (nonlinear_arith)
                requires
                    qabs(t).n * wp.d == wp.n * qabs(t).d,
                    qabs(t) == t,
            ;
            lemma_qle_same_value(wl, wp, t, wu);
            lemma_qle_add_sub(st.lower, dv, wl, t);
            lemma_qle_add_sub(dv, st.upper, t, wu);
        } else {
            assert(t.n <= 0);
            let nt = qneg(t);
            assert(qabs(t) == nt);
            assert(same_value(wp, nt)) by (nonlinear_arith)
                requires
                    qabs(t).n * wp.d == wp.n * qabs(t).d,
                    qabs(t) == nt,
            ;
            lemma_qle_same_value(wl, wp, nt, wu);
            lemma_add_is_sub_neg(dv, t);
            lemma_qle_add_sub(st.lower, dv, wu, nt);
            lemma_qle_add_sub(dv, st.upper, nt, wl);
        }
        // The power.
        let p2 = qmul(p, x);
        let ax = qabs(x);
        lemma_abs_mul_value(p, x);
        lemma_qle_mul(st.pow_lower, ap, a, ax);
        lemma_qle_mul(ap, st.pow_upper, ax, b);
        let pax = qmul(ap, ax);
        assert(same_value(pax, qabs(p2))) by (nonlinear_arith)
            requires
                qabs(p2).n * pax.d == pax.n * qabs(p2).d,
        ;
        lemma_qle_same_value(qmul(st.pow_lower, a), pax, qabs(p2), qmul(st.pow_upper, b));
        assert(p.n * x.n != 0) by (nonlinear_arith)
            requires
                p.n != 0,
                x.n != 0,
        ;
        assert(p.n * x.n > 0 <==> (p.n > 0 && x.n > 0) || (p.n < 0 && x.n < 0)) by (nonlinear_arith);
    }
}

/// `e / d2 <= e / d1` for `e >= 0` and `0 < d1 <= d2`.
proof fn lemma_qle_div(e: Q, d1: Q, d2: Q)
    requires
        e.d > 0,
        e.n >= 0,
        d1.d > 0,
        d2.d > 0,
        d1.n > 0,
        qle(d1, d2),
    ensures
        qle(qdiv(e, d2), qdiv(e, d1)),
        qdiv(e, d1).d > 0,
        qdiv(e, d2).d > 0,
{
    assert(d2.n > 0) by (nonlinear_arith)
        requires
            d1.n * d2.d <= d2.n * d1.d,
            d1.n > 0,
            d1.d > 0,
            d2.d > 0,
    ;
    let n1 = e.n * d2.d;
    let m1 = e.d * d2.n;
    let n2 = e.n * d1.d;
    let m2 = e.d * d1.n;
    assert(m1 > 0 && m2 > 0) by (nonlinear_arith)
        requires
            e.d > 0,
            d1.n > 0,
            d2.n > 0,
            m1 == e.d * d2.n,
            m2 == e.d * d1.n,
    ;
    let ee = e.n * e.d;
    assert(ee >= 0) by (nonlinear_arith)
        requires
            e.n >= 0,
            e.d > 0,
            ee == e.n * e.d,
    ;
    assert(ee * (d1.n * d2.d) <= ee * (d2.n * d1.d)) by (nonlinear_arith)
        requires
            ee >= 0,
            d1.n * d2.d <= d2.n * d1.d,
    ;
    assert(n1 * m2 == ee * (d1.n * d2.d)) by (nonlinear_arith)
        requires
            n1 == e.n * d2.d,
            m2 == e.d * d1.n,
            ee == e.n * e.d,
    ;
    assert(n2 * m1 == ee * (d2.n * d1.d)) by (nonlinear_arith)
        requires
            n2 == e.n * d1.d,
            m1 == e.d * d2.n,
            ee == e.n * e.d,
    ;
    lemma_qle_norm(n1, m1, n2, m2);
    lemma_qnorm_value(n1, m1);
    lemma_qnorm_value(n2, m2);
}

/// The interval Newton step gives a proper interval: on a proper interval
/// `[lower, upper]` its lower end is not above its upper end.
pub proof fn lemma_newton_ordered(cs: Seq<Q>, lower: Q, upper: Q)
    requires
        lower.d > 0,
        upper.d > 0,
        qle(lower, upper),
        cs.len() > 0,
        forall|i: int| 0 <= i < cs.len() ==> (#[trigger] cs[i]).d > 0,
    ensures
        newton_step(cs, lower, upper) matches Some(p) ==> qle(p.0, p.1),
{
    if newton_step(cs, lower, upper) is Some {
        let is_positive = lower.n > 0;
        let a = if is_positive { lower } else { qneg(upper) };
        let b = if is_positive { upper } else { qneg(lower) };
        if !is_positive {
            assert(upper.n < 0);
            assert((-upper.n) * lower.d <= (-lower.n) * upper.d) by (nonlinear_arith)
                requires
                    lower.n * upper.d <= upper.n * lower.d,
            ;
        }
        assert(qle(a, b));
        let k = (cs.len() - 1) as nat;
        lemma_derivative_bounds_ordered(cs, k, is_positive, a, b);
        lemma_derivative_bounds_den(cs, k, is_positive, a, b);
        let st = derivative_bounds(cs, k, is_positive, a, b);
        let der_positive = st.lower.n > 0;
        let dal = if der_positive { st.lower } else { qneg(st.upper) };
        let dau = if der_positive { st.upper } else { qneg(st.lower) };
        if !der_positive {
            assert((-st.upper.n) * st.lower.d <= (-st.lower.n) * st.upper.d) by (nonlinear_arith)
                requires
                    st.lower.n * st.upper.d <= st.upper.n * st.lower.d,
            ;
        }
        assert(qle(dal, dau));
        assert(dal.n > 0);
        let m = midpoint(lower, upper);
        lemma_den_mul_add(lower, upper);
        let s2 = qadd(lower, upper);
        lemma_qnorm_value(s2.n * 1, s2.d * 2);
        lemma_horner_den(cs, m);
        let e = horner(cs, m);
        let ae = qabs(e);
        lemma_qle_div(ae, dal, dau);
        let dl = qdiv(ae, dau);
        let du = qdiv(ae, dal);
        assert(qle(m, m));
        lemma_qle_add_sub(m, m, du, dl);
        lemma_qle_add_sub(m, m, dl, du);
    }
}

/// An interval Newton step narrowing `[lower, upper]` around a root of `f`;
/// `None` when the interval or the derivative's interval contains zero.
fn interval_newton(f: &UnivariatePolynomial, lower: &Rat, upper: &Rat) -> (r: Option<(Rat, Rat)>)
    ensures
        r is None <==> newton_step(f@, lower@, upper@) is None,
        r matches Some(p) ==> newton_step(f@, lower@, upper@) == Some((p.0@, p.1@)),
{
    let (is_positive, abs_lower, abs_upper) = if lower.is_positive() {
        (true, lower.duplicate(), upper.duplicate())
    } else if upper.is_negative() {
        (false, upper.neg(), lower.neg())
    } else {
        return None;
    };
    let cs = f.iter();
    let ghost g = f@;
    let mut pow_positive = true;
    let mut der_lower = Rat::from_i64(0);
    let mut der_upper = Rat::from_i64(0);
    let mut pow_lower = Rat::from_i64(1);
    let mut pow_upper = Rat::from_i64(1);
    let mut i: usize = 1;
    while i < cs.len()
        invariant
            rat_values(cs@) == g,
            g == f@,
            1 <= i <= cs@.len(),
            ({
                let st = derivative_bounds(g, (i - 1) as nat, is_positive, abs_lower@, abs_upper@);
                &&& der_lower@ == st.lower
                &&& der_upper@ == st.upper
                &&& pow_positive == st.pow_positive
                &&& pow_lower@ == st.pow_lower
                &&& pow_upper@ == st.pow_upper
            }),
        decreases cs@.len() - i,
    {
        let coeff = &cs[i];
        assert(coeff@ == g[i as int]);
        let w = Rat::from_usize(i).mul(&coeff.abs());
        if pow_positive == coeff.is_positive() {
            der_lower = der_lower.add(&w.mul(&pow_lower));
            der_upper = der_upper.add(&w.mul(&pow_upper));
        } else {
            der_lower = der_lower.sub(&w.mul(&pow_upper));
            der_upper = der_upper.sub(&w.mul(&pow_lower));
        }
        pow_lower = pow_lower.mul(&abs_lower);
        pow_upper = pow_upper.mul(&abs_upper);
        if !is_positive {
            pow_positive = !pow_positive;
        }
        i = i + 1;
    }
    let (der_is_positive, der_abs_lower, der_abs_upper) = if der_lower.is_positive() {
        (true, der_lower.duplicate(), der_upper.duplicate())
    } else if der_upper.is_negative() {
        (false, der_upper.neg(), der_lower.neg())
    } else {
        return None;
    };
    if der_abs_upper.is_zero() {
        return None;
    }
    let mid = lower.add(upper).div(&Rat::from_i64(2));
    let eval_midpoint = f.substitute(&mid);
    let eval_abs = eval_midpoint.abs();
    let delta_abs_lower = eval_abs.div(&der_abs_upper);
    proof {
        if der_is_positive {
            assert(der_abs_lower@.n > 0);
        } else {
            assert(der_abs_lower@.n == -der_upper@.n);
        }
    }
    let delta_abs_upper = eval_abs.div(&der_abs_lower);
    let delta_is_positive = eval_midpoint.is_positive() == der_is_positive;
    if delta_is_positive {
        Some((mid.sub(&delta_abs_upper), mid.sub(&delta_abs_lower)))
    } else {
        Some((mid.add(&delta_abs_lower), mid.add(&delta_abs_upper)))
    }
}

/// The larger of two rationals.
fn rat_max(a: Rat, b: Rat) -> (r: Rat)
    ensures
        r@ == if qlt(a@, b@) { b@ } else { a@ },
{
    if a.lt(&b) {
        b
    } else {
        a
    }
}

/// The smaller of two rationals.
fn rat_min(a: Rat, b: Rat) -> (r: Rat)
    ensures
        r@ == if qlt(b@, a@) { b@ } else { a@ },
{
    if b.lt(&a) {
        b
    } else {
        a
    }
}

/// The sign of a rational: 1, -1 or 0.
pub open spec fn qsignum(q: Q) -> int {
    if q.n > 0 {
        1
    } else if q.n < 0 {
        -1
    } else {
        0
    }
}

/// The bisection half of `[lower, upper]` where `f` changes sign.
pub open spec fn bisect(f: Seq<Q>, lower: Q, upper: Q) -> (Q, Q) {
    let m = midpoint(lower, upper);
    if qsignum(horner(f, lower)) != qsignum(horner(f, m)) {
        (lower, m)
    } else {
        (m, upper)
    }
}

/// A bisection step stays within the interval and keeps a change of sign of
/// `f` between its two ends.
pub proof fn lemma_bisect_keeps_sign_change(f: Seq<Q>, lower: Q, upper: Q)
    requires
        lower.d > 0,
        upper.d > 0,
        qlt(lower, upper),
        qsignum(horner(f, lower)) != qsignum(horner(f, upper)),
    ensures
        qle(lower, bisect(f, lower, upper).0),
        qlt(bisect(f, lower, upper).0, bisect(f, lower, upper).1),
        qle(bisect(f, lower, upper).1, upper),
        qsignum(horner(f, bisect(f, lower, upper).0)) != qsignum(horner(f, bisect(f, lower, upper).1)),
{
    lemma_midpoint_between(lower, upper);
    assert(qle(lower, lower));
    assert(qle(upper, upper));
}

/// The refined interval: the bisection half, intersected with the Newton
/// interval when that is asked for and available.
pub open spec fn refined(f: Seq<Q>, lower: Q, upper: Q, use_newton: bool) -> (Q, Q) {
    let (l, u) = bisect(f, lower, upper);
    if use_newton && newton_step(f, l, u) is Some {
        let (nl, nu) = newton_step(f, l, u)->0;
        (if qlt(l, nl) { nl } else { l }, if qlt(nu, u) { nu } else { u })
    } else {
        (l, u)
    }
}

/// Halves `[lower, upper]` to the side where `f` changes sign, then, if
/// asked, intersects it with an interval Newton step.
pub fn refine_range(f: &UnivariatePolynomial, lower: &Rat, upper: &Rat, use_newton: bool) -> (r: (Rat, Rat))
    ensures
        (r.0@, r.1@) == refined(f@, lower@, upper@, use_newton),
        !use_newton && qlt(lower@, upper@) && qsignum(horner(f@, lower@)) != qsignum(horner(f@, upper@)) ==> {
            &&& qle(lower@, r.0@)
            &&& qlt(r.0@, r.1@)
            &&& qle(r.1@, upper@)
            &&& qsignum(horner(f@, r.0@)) != qsignum(horner(f@, r.1@))
        },
{
    proof {
        use_type_invariant(lower);
        use_type_invariant(upper);
        if qlt(lower@, upper@) && qsignum(horner(f@, lower@)) != qsignum(horner(f@, upper@)) {
            lemma_bisect_keeps_sign_change(f@, lower@, upper@);
        }
    }
    let mid = lower.add(upper).div(&Rat::from_i64(2));
    let eval_lower = f.substitute(lower);
    let eval_mid = f.substitute(&mid);
    let sl: i8 = if eval_lower.is_positive() { 1 } else if eval_lower.is_negative() { -1 } else { 0 };
    let sm: i8 = if eval_mid.is_positive() { 1 } else if eval_mid.is_negative() { -1 } else { 0 };
    let (new_lower, new_upper) = if sl != sm {
        (lower.duplicate(), mid)
    } else {
        (mid, upper.duplicate())
    };
    if use_newton {
        match interval_newton(f, &new_lower, &new_upper) {
            Some((nl, nu)) => {
                return (rat_max(new_lower, nl), rat_min(new_upper, nu));
            },
            None => {},
        }
    }
    (new_lower, new_upper)
}

/// Half of a proper interval is proper.
proof fn lemma_bisect_proper(f: Seq<Q>, lower: Q, upper: Q)
    requires
        qlt(lower, upper),
        lower.d > 0,
        upper.d > 0,
    ensures
        qlt(bisect(f, lower, upper).0, bisect(f, lower, upper).1),
{
    lemma_midpoint_between(lower, upper);
}

/// The midpoint of a proper interval lies strictly inside it.
pub proof fn lemma_midpoint_between(lower: Q, upper: Q)
    requires
        qlt(lower, upper),
        lower.d > 0,
        upper.d > 0,
    ensures
        qlt(lower, midpoint(lower, upper)),
        qlt(midpoint(lower, upper), upper),
        midpoint(lower, upper).d > 0,
{
    let n = lower.n * upper.d + upper.n * lower.d;
    let d = lower.d * upper.d;
    assert(d > 0) by (nonlinear_arith)
        requires
            d == lower.d * upper.d,
            lower.d > 0,
            upper.d > 0,
    ;
    crate::number::lemma_qnorm_sign(n, d);
    let s = qadd(lower, upper);
    crate::number::lemma_qnorm_value(n, d);
    assert(s.d > 0);
    crate::number::lemma_qnorm_value(s.n * 1, s.d * 2);
    let m = midpoint(lower, upper);
    // m = s / 2 = n / (2 d) as values
    assert(m.n * (s.d * 2) == (s.n * 1) * m.d);
    assert(s.n * d == n * s.d);
    assert(m.d > 0);
    assert(lower.n * upper.d < upper.n * lower.d);
    assert(lower.n * m.d < m.n * lower.d) by (nonlinear_arith)
        requires
            m.n * (s.d * 2) == s.n * m.d,
            s.n * d == n * s.d,
            n == lower.n * upper.d + upper.n * lower.d,
            d == lower.d * upper.d,
            lower.n * upper.d < upper.n * lower.d,
            m.d > 0,
            s.d > 0,
            lower.d > 0,
            upper.d > 0,
    ;
    assert(m.n * upper.d < upper.n * m.d) by (nonlinear_arith)
        requires
            m.n * (s.d * 2) == s.n * m.d,
            s.n * d == n * s.d,
            n == lower.n * upper.d + upper.n * lower.d,
            d == lower.d * upper.d,
            lower.n * upper.d < upper.n * lower.d,
            m.d > 0,
            s.d > 0,
            lower.d > 0,
            upper.d > 0,
    ;
}

/// `x` is `root` with its interval replaced by the refined one, or by the
/// bisection half when the refined interval is empty.
pub open spec fn refines_to(root: RootView, x: RootView, use_newton: bool) -> bool {
    match root.range {
        RootRange::Interval(l, u) => {
            let (rl, ru) = refined(root.poly, l, u, use_newton);
            let (bl, bu) = bisect(root.poly, l, u);
            x.poly == root.poly && if qlt(rl, ru) {
                x.range == RootRange::Interval(rl, ru)
            } else {
                x.range == RootRange::Interval(bl, bu)
            }
        },
        RootRange::Exact(_) => false,
    }
}

/// The root with its interval refined once; `None` for an exact root. When
/// the Newton step would leave an empty interval, the bisection half is kept.
pub fn refine_root(root: &Root, use_newton: bool) -> (r: Option<Root>)
    ensures
        r is None <==> root@.range is Exact,
        r matches Some(x) ==> refines_to(root@, x@, use_newton),
{
    match root.get_interval() {
        Some((lower, upper)) => {
            let poly = root.get_poly();
            proof {
                use_type_invariant(root);
                assert(poly@.len() > 2);
                use_type_invariant(&lower);
                use_type_invariant(&upper);
                lemma_bisect_proper(poly@, lower@, upper@);
            }
            let (new_low, new_high) = refine_range(poly, &lower, &upper, use_newton);
            if new_low.lt(&new_high) {
                Some(Root::new(poly.duplicate(), new_low, new_high))
            } else {
                let (bl, bh) = refine_range(poly, &lower, &upper, false);
                Some(Root::new(poly.duplicate(), bl, bh))
            }
        },
        None => None,
    }
}

/// The two roots are known to differ: distinct exact values, an exact value
/// outside an interval, or disjoint intervals.
pub open spec fn separated(a: RootRange, b: RootRange) -> bool {
    match (a, b) {
        (RootRange::Exact(x), RootRange::Exact(y)) => qlt(x, y) || qlt(y, x),
        (RootRange::Exact(x), RootRange::Interval(l, u)) => qlt(x, l) || qlt(u, x),
        (RootRange::Interval(l, u), RootRange::Exact(x)) => qlt(x, l) || qlt(u, x),
        (RootRange::Interval(l1, u1), RootRange::Interval(l2, u2)) => qlt(u1, l2) || qlt(u2, l1),
    }
}

/// Whether the two roots are known to differ.
fn is_separated(root1: &Root, root2: &Root) -> (r: bool)
    ensures
        r == separated(root1@.range, root2@.range),
{
    match (root1.get_range(), root2.get_range()) {
        (Range::Exact(r1), Range::Exact(r2)) => {
            proof {
                use_type_invariant(r1);
                use_type_invariant(r2);
                if !qlt(r1@, r2@) && !qlt(r2@, r1@) {
                    lemma_qcanon_unique(r1@, r2@);
                }
            }
            !r1.eq(r2)
        },
        (Range::Exact(r1), Range::Interval(l2, u2)) => r1.lt(l2) || u2.lt(r1),
        (Range::Interval(l2, u2), Range::Exact(r1)) => r1.lt(l2) || u2.lt(r1),
        (Range::Interval(l1, u1), Range::Interval(l2, u2)) => u1.lt(l2) || u2.lt(l1),
    }
}

/// The root `x` as an exact rational root.
pub open spec fn rational_root(q: Q) -> RootView {
    RootView { poly: seq![qneg(q), qint(1)], range: RootRange::Exact(q) }
}

/// The lower bound of root `i` is not above that of root `i + 1`.
pub open spec fn lower_step(d: Seq<RootView>, i: int) -> bool {
    qle(lower_bound(d[i].range), lower_bound(d[i + 1].range))
}

/// Roots sorted by their lower bounds.
pub open spec fn sorted_by_lower(d: Seq<RootView>) -> bool {
    forall|i: int| 0 <= i < d.len() - 1 ==> #[trigger] lower_step(d, i)
}

/// Any two of the roots are known to differ.
pub open spec fn pairwise_separated(d: Seq<RootView>) -> bool {
    forall|i: int, j: int| 0 <= i < d.len() && 0 <= j < d.len() && i != j ==> separated(d[i].range, d[j].range)
}

/// Every root of `d` has the shape of a root.
pub open spec fn shaped_roots(d: Seq<RootView>) -> bool {
    forall|i: int| 0 <= i < d.len() ==> root_shape(#[trigger] d[i])
}

/// In a sorted, pairwise separated list of roots, each root lies wholly
/// below the next one.
pub proof fn lemma_neighbours_apart(d: Seq<RootView>, i: int)
    requires
        sorted_by_lower(d),
        pairwise_separated(d),
        shaped_roots(d),
        0 <= i < d.len() - 1,
    ensures
        qlt(upper_bound(d[i].range), lower_bound(d[i + 1].range)),
{
    let a = d[i];
    let b = d[i + 1];
    assert(root_shape(a));
    assert(root_shape(b));
    assert(lower_step(d, i));
    assert(separated(a.range, b.range));
    match (a.range, b.range) {
        (RootRange::Exact(x), RootRange::Exact(y)) => {
            if qlt(y, x) {
                lemma_q_order_trans(x, y, x);
            }
        },
        (RootRange::Exact(x), RootRange::Interval(l, u)) => {
            if qlt(u, x) {
                lemma_q_order_trans(l, u, x);
                lemma_q_order_trans(l, x, l);
            }
        },
        (RootRange::Interval(l, u), RootRange::Exact(x)) => {
            if qlt(x, l) {
                lemma_q_order_trans(x, l, x);
            }
        },
        (RootRange::Interval(l1, u1), RootRange::Interval(l2, u2)) => {
            if qlt(u2, l1) {
                lemma_q_order_trans(l2, u2, l1);
                lemma_q_order_trans(l2, l1, l2);
            }
        },
    }
}

/// `q - 1 < q < q + 1`.
proof fn lemma_step_one(q: Q)
    requires
        q.d > 0,
    ensures
        qlt(qsub(q, qint(1)), q),
        qlt(q, qadd(q, qint(1))),
{
    lemma_qnorm_value(q.n * 1 - 1 * q.d, q.d * 1);
    lemma_qnorm_value(q.n * 1 + 1 * q.d, q.d * 1);
    let x = qsub(q, qint(1));
    let y = qadd(q, qint(1));
    assert(x.n * q.d < q.n * x.d) by (nonlinear_arith)
        requires
            x.n * (q.d * 1) == (q.n * 1 - 1 * q.d) * x.d,
            q.d > 0,
            x.d > 0,
    ;
    assert(q.n * y.d < y.n * q.d) by (nonlinear_arith)
        requires
            y.n * (q.d * 1) == (q.n * 1 + 1 * q.d) * y.d,
            q.d > 0,
            y.d > 0,
    ;
}

/// The sample points separate the roots: the first lies below the lowest
/// root, each one between two neighbouring roots lies above the upper bound
/// of the lower root and below the lower bound of the higher one, and the
/// last lies above the highest root. Each of them is an exact rational.
pub proof fn lemma_samples_between(d: Seq<RootView>)
    requires
        sorted_by_lower(d),
        pairwise_separated(d),
        shaped_roots(d),
    ensures
        d.len() > 0 ==> (sample_points_of(d)[0].range matches RootRange::Exact(q) && qlt(q, lower_bound(d[0].range))),
        d.len() > 0 ==> (sample_points_of(d)[2 * d.len() as int].range matches RootRange::Exact(q) && qlt(
            upper_bound(d[d.len() - 1].range),
            q,
        )),
        forall|k: int|
            0 < k < 2 * d.len() && k % 2 == 0 ==> ((#[trigger] sample_points_of(d)[k]).range matches RootRange::Exact(q)
                && qlt(upper_bound(d[k / 2 - 1].range), q) && qlt(q, lower_bound(d[k / 2].range))),
{
    if d.len() > 0 {
        assert(root_shape(d[0]));
        assert(root_shape(d[d.len() - 1]));
        lemma_step_one(lower_bound(d[0].range));
        lemma_step_one(upper_bound(d[d.len() - 1].range));
    }
    assert forall|k: int|
        0 < k < 2 * d.len() && k % 2 == 0 implies ((#[trigger] sample_points_of(d)[k]).range matches RootRange::Exact(q)
        && qlt(upper_bound(d[k / 2 - 1].range), q) && qlt(q, lower_bound(d[k / 2].range))) by {
        let i = k / 2 - 1;
        lemma_neighbours_apart(d, i);
        assert(root_shape(d[i]));
        assert(root_shape(d[i + 1]));
        lemma_midpoint_between(upper_bound(d[i].range), lower_bound(d[i + 1].range));
    }
}

/// Sample points around the sorted roots `d`: one below the first, each
/// root, a midpoint between neighbours, and one above the last; the single
/// point 0 when there are no roots.
pub open spec fn sample_points_of(d: Seq<RootView>) -> Seq<RootView> {
    if d.len() == 0 {
        seq![rational_root(qint(0))]
    } else {
        let n = d.len();
        Seq::new(
            2 * n + 1,
            |k: int|
                if k == 0 {
                    rational_root(qsub(lower_bound(d[0].range), qint(1)))
                } else if k % 2 == 1 {
                    d[(k - 1) / 2]
                } else if k == 2 * n {
                    rational_root(qadd(upper_bound(d[n - 1].range), qint(1)))
                } else {
                    rational_root(midpoint(upper_bound(d[k / 2 - 1].range), lower_bound(d[k / 2].range)))
                },
        )
    }
}

/// Inserts `root` after the roots whose lower bound is not above its own,
/// and returns where it went.
fn insert_sorted(out: &mut Vec<Root>, root: Root) -> (pos: usize)
    requires
        sorted_by_lower(roots_view(old(out)@)),
    ensures
        pos <= old(out)@.len(),
        final(out)@ == old(out)@.insert(pos as int, root),
        sorted_by_lower(roots_view(final(out)@)),
{
    let key = root.get_lower_bound();
    let ghost rs = roots_view(out@);
    let mut pos: usize = 0;
    while pos < out.len()
        invariant
            pos <= out@.len(),
            rs == roots_view(out@),
            key@ == lower_bound(root@.range),
            forall|i: int| 0 <= i < pos ==> qle(lower_bound(rs[i].range), key@),
        ensures
            pos <= out@.len(),
            forall|i: int| 0 <= i < pos ==> qle(lower_bound(rs[i].range), key@),
            pos < out@.len() ==> qlt(key@, lower_bound(rs[pos as int].range)),
        decreases out@.len() - pos,
    {
        let b = out[pos].get_lower_bound();
        assert(rs[pos as int] == out@[pos as int]@);
        if key.lt(&b) {
            break;
        }
        pos = pos + 1;
    }
    let ghost p = pos as int;
    let ghost before = out@;
    out.insert(pos, root);
    proof {
        let t = roots_view(out@);
        assert(t =~= rs.insert(p, root@));
        assert forall|i: int| 0 <= i < t.len() - 1 implies #[trigger] lower_step(t, i) by {
            if i + 1 < p {
                assert(t[i] == rs[i] && t[i + 1] == rs[i + 1]);
                assert(lower_step(rs, i));
            } else if i + 1 == p {
                assert(t[i] == rs[i]);
            } else if i == p {
                assert(t[i + 1] == rs[p]);
                assert(qlt(key@, lower_bound(rs[p].range)));
            } else {
                assert(t[i] == rs[i - 1] && t[i + 1] == rs[i]);
                assert(lower_step(rs, i - 1));
            }
        }
    }
    pos
}

/// `x` describes the same root as `y` with an equal or narrower range.
pub open spec fn within(x: RootView, y: RootView) -> bool {
    x.poly == y.poly && match (x.range, y.range) {
        (RootRange::Exact(a), RootRange::Exact(b)) => a == b,
        (RootRange::Interval(l1, u1), RootRange::Interval(l2, u2)) => qle(l2, l1) && qle(u1, u2),
        _ => false,
    }
}

/// Every interval lies within itself.
pub proof fn lemma_within_refl(x: RootView)
    requires
        range_denominators(x.range),
    ensures
        within(x, x),
{
}

/// Lying within another interval is transitive.
pub proof fn lemma_within_trans(x: RootView, y: RootView, z: RootView)
    requires
        within(x, y),
        within(y, z),
        range_denominators(x.range),
        range_denominators(y.range),
        range_denominators(z.range),
    ensures
        within(x, z),
{
    if let (RootRange::Interval(l1, u1), RootRange::Interval(l2, u2), RootRange::Interval(l3, u3)) = (x.range, y.range, z.range) {
        crate::number::lemma_q_order_trans(l3, l2, l1);
        crate::number::lemma_q_order_trans(u1, u2, u3);
    }
}

/// A refinement step, with or without Newton, narrows the interval.
pub proof fn lemma_refine_within_any(root: RootView, x: RootView, use_newton: bool)
    requires
        root_shape(root),
        root_shape(x),
        refines_to(root, x, use_newton),
    ensures
        within(x, root),
{
    if let RootRange::Interval(l, u) = root.range {
        lemma_refine_within(root, RootView { poly: root.poly, range: RootRange::Interval(bisect(root.poly, l, u).0, bisect(root.poly, l, u).1) });
        lemma_midpoint_between(l, u);
        let (bl, bu) = bisect(root.poly, l, u);
        let (rl, ru) = refined(root.poly, l, u, use_newton);
        if qlt(rl, ru) {
            assert(x.range == RootRange::Interval(rl, ru));
            crate::number::lemma_q_order_trans(bl, rl, rl);
            crate::number::lemma_q_order_trans(ru, bu, bu);
            if use_newton && newton_step(root.poly, bl, bu) is Some {
                let (nl, nu) = newton_step(root.poly, bl, bu)->0;
                if qlt(bl, nl) {
                    crate::number::lemma_q_order_trans(bl, nl, nl);
                } else {
                    crate::number::lemma_q_order_trans(bl, bl, bl);
                }
                if qlt(nu, bu) {
                    crate::number::lemma_q_order_trans(nu, bu, bu);
                } else {
                    crate::number::lemma_q_order_trans(bu, bu, bu);
                }
            } else {
                crate::number::lemma_q_order_trans(bl, bl, bl);
                crate::number::lemma_q_order_trans(bu, bu, bu);
            }
            crate::number::lemma_q_order_trans(l, bl, rl);
            crate::number::lemma_q_order_trans(ru, bu, u);
            crate::number::lemma_q_order_trans(l, l, bl);
            crate::number::lemma_q_order_trans(bu, u, u);
        }
    }
}

/// A bisection step narrows the interval.
proof fn lemma_refine_within(root: RootView, x: RootView)
    requires
        root_shape(root),
        x.poly == root.poly,
        root.range matches RootRange::Interval(l, u) && x.range == RootRange::Interval(bisect(root.poly, l, u).0, bisect(root.poly, l, u).1),
    ensures
        within(x, root),
{
    if let RootRange::Interval(l, u) = root.range {
        lemma_midpoint_between(l, u);
        let m = midpoint(l, u);
        crate::number::lemma_q_order_trans(l, m, u);
        crate::number::lemma_q_order_trans(m, u, u);
        crate::number::lemma_q_order_trans(l, l, m);
        assert(qle(l, l));
        assert(qle(u, u));
    }
}

/// Separation survives narrowing both ranges.
proof fn lemma_separated_shrink(a: RootView, b: RootView, a2: RootView, b2: RootView)
    requires
        separated(a.range, b.range),
        within(a2, a),
        within(b2, b),
        range_denominators(a.range),
        range_denominators(b.range),
        range_denominators(a2.range),
        range_denominators(b2.range),
    ensures
        separated(a2.range, b2.range),
{
    match (a.range, b.range, a2.range, b2.range) {
        (RootRange::Exact(x), RootRange::Interval(l, u), RootRange::Exact(_), RootRange::Interval(l2, u2)) => {
            crate::number::lemma_q_order_trans(x, l, l2);
            crate::number::lemma_q_order_trans(u2, u, x);
        },
        (RootRange::Interval(l, u), RootRange::Exact(x), RootRange::Interval(l2, u2), RootRange::Exact(_)) => {
            crate::number::lemma_q_order_trans(x, l, l2);
            crate::number::lemma_q_order_trans(u2, u, x);
        },
        (RootRange::Interval(l1, u1), RootRange::Interval(l2, u2), RootRange::Interval(l3, u3), RootRange::Interval(l4, u4)) => {
            crate::number::lemma_q_order_trans(u3, u1, l2);
            crate::number::lemma_q_order_trans(u3, l2, l4);
            crate::number::lemma_q_order_trans(u1, l2, l4);
            crate::number::lemma_q_order_trans(u4, u2, l1);
            crate::number::lemma_q_order_trans(u4, l1, l3);
            crate::number::lemma_q_order_trans(u2, l1, l3);
        },
        _ => {},
    }
}

/// The root after one refinement step without Newton; an exact root stays.
pub open spec fn refine_once(v: RootView) -> RootView {
    match v.range {
        RootRange::Interval(l, u) => {
            let (rl, ru) = refined(v.poly, l, u, false);
            let (bl, bu) = bisect(v.poly, l, u);
            RootView {
                poly: v.poly,
                range: if qlt(rl, ru) {
                    RootRange::Interval(rl, ru)
                } else {
                    RootRange::Interval(bl, bu)
                },
            }
        },
        RootRange::Exact(_) => v,
    }
}

/// The root after `k` refinement steps without Newton.
pub open spec fn refine_times(v: RootView, k: nat) -> RootView
    decreases k,
{
    if k == 0 {
        v
    } else {
        refine_once(refine_times(v, (k - 1) as nat))
    }
}

/// After `k` steps each, the two roots are known to differ.
pub open spec fn sep_after(a: RootView, b: RootView, k: nat) -> bool {
    separated(refine_times(a, k).range, refine_times(b, k).range)
}

/// `k`, at most `u64::MAX`, is the least number of steps after which the two
/// roots are known to differ.
pub open spec fn first_sep(a: RootView, b: RootView, k: nat) -> bool {
    k <= u64::MAX && sep_after(a, b, k) && forall|j: nat| j < k ==> !#[trigger] sep_after(a, b, j)
}

proof fn lemma_first_sep_unique(a: RootView, b: RootView, k1: nat, k2: nat)
    requires
        first_sep(a, b, k1),
        first_sep(a, b, k2),
    ensures
        k1 == k2,
{
    if k1 < k2 {
        assert(!sep_after(a, b, k1));
    } else if k2 < k1 {
        assert(!sep_after(a, b, k2));
    }
}

/// Refines both roots, step by step together, until they are known to
/// differ; `false` when `u64::MAX` steps do not get there.
fn separate_pair(root: &mut Root, other: &mut Root) -> (ok: bool)
    ensures
        within(final(root)@, old(root)@),
        within(final(other)@, old(other)@),
        root_shape(final(root)@),
        root_shape(final(other)@),
        ok ==> separated(final(root)@.range, final(other)@.range),
        ok <==> exists|k: nat| #[trigger] first_sep(old(root)@, old(other)@, k),
        ok ==> exists|k: nat|
            #[trigger] first_sep(old(root)@, old(other)@, k) && final(root)@ == refine_times(old(root)@, k)
                && final(other)@ == refine_times(old(other)@, k),
{
    proof {
        use_type_invariant(&*root);
        use_type_invariant(&*other);
    }
    let ghost r0 = root@;
    let ghost o0 = other@;
    let mut fuel: u64 = 0;
    while !is_separated(root, other)
        invariant
            r0 == old(root)@,
            o0 == old(other)@,
            within(root@, r0),
            within(other@, o0),
            root_shape(root@),
            root_shape(other@),
            root_shape(r0),
            root_shape(o0),
            root@ == refine_times(r0, fuel as nat),
            other@ == refine_times(o0, fuel as nat),
            forall|j: nat| j < fuel ==> !#[trigger] sep_after(r0, o0, j),
        decreases u64::MAX - fuel,
    {
        if fuel == u64::MAX {
            proof {
                assert forall|k: nat| !#[trigger] first_sep(r0, o0, k) by {
                    if k <= u64::MAX && k < fuel {
                        assert(!sep_after(r0, o0, k));
                    }
                }
            }
            return false;
        }
        let ghost f0 = fuel as nat;
        proof {
            assert(!sep_after(r0, o0, f0));
        }
        fuel = fuel + 1;
        match refine_root(root, false) {
            Some(x) => {
                proof {
                    use_type_invariant(&x);
                    lemma_refine_within_any(root@, x@, false);
                    lemma_within_trans(x@, root@, r0);
                    assert(x@ == refine_once(root@));
                }
                *root = x;
            },
            None => {},
        }
        match refine_root(other, false) {
            Some(y) => {
                proof {
                    use_type_invariant(&y);
                    lemma_refine_within_any(other@, y@, false);
                    lemma_within_trans(y@, other@, o0);
                    assert(y@ == refine_once(other@));
                }
                *other = y;
            },
            None => {},
        }
    }
    proof {
        assert(first_sep(r0, o0, fuel as nat));
    }
    true
}

/// The number of steps that separate `a` from `b`, when some number up to
/// `u64::MAX` does.
pub open spec fn sep_steps(a: RootView, b: RootView) -> nat {
    choose|k: nat| first_sep(a, b, k)
}

/// The root `r` separated in turn from the first `j` roots of `d`, both
/// refined step by step together; `None` when a pair is not separated
/// within `u64::MAX` steps.
pub open spec fn insert_root(r: RootView, d: Seq<RootView>, j: nat) -> Option<(RootView, Seq<RootView>)>
    decreases j,
{
    if j == 0 {
        Some((r, d))
    } else {
        match insert_root(r, d, (j - 1) as nat) {
            None => None,
            Some(st) => if exists|k: nat| #[trigger] first_sep(st.0, st.1[j - 1], k) {
                let k = sep_steps(st.0, st.1[j - 1]);
                Some((refine_times(st.0, k), st.1.update(j - 1, refine_times(st.1[j - 1], k))))
            } else {
                None
            },
        }
    }
}

/// The first `i` roots of `rs`, each separated in turn from those before
/// it; `None` when a pair is not separated within `u64::MAX` steps.
pub open spec fn separate_all(rs: Seq<RootView>, i: nat) -> Option<Seq<RootView>>
    decreases i,
{
    if i == 0 {
        Some(Seq::empty())
    } else {
        match separate_all(rs, (i - 1) as nat) {
            None => None,
            Some(d) => match insert_root(rs[i - 1], d, d.len()) {
                None => None,
                Some(st) => Some(st.1.push(st.0)),
            },
        }
    }
}

proof fn lemma_insert_step(r: RootView, d: Seq<RootView>, j: nat, sr: RootView, sd: Seq<RootView>, k: nat)
    requires
        insert_root(r, d, j) == Some((sr, sd)),
        first_sep(sr, sd[j as int], k),
    ensures
        insert_root(r, d, j + 1) == Some(
            (refine_times(sr, k), sd.update(j as int, refine_times(sd[j as int], k))),
        ),
{
    assert(exists|k2: nat| #[trigger] first_sep(sr, sd[j as int], k2));
    lemma_first_sep_unique(sr, sd[j as int], k, sep_steps(sr, sd[j as int]));
}

proof fn lemma_insert_root_none(r: RootView, d: Seq<RootView>, j: nat, m: nat)
    requires
        j <= m,
        insert_root(r, d, j) is None,
    ensures
        insert_root(r, d, m) is None,
    decreases m - j,
{
    if j < m {
        lemma_insert_root_none(r, d, j, (m - 1) as nat);
    }
}

proof fn lemma_separate_all_none(rs: Seq<RootView>, i: nat, m: nat)
    requires
        i <= m,
        separate_all(rs, i) is None,
    ensures
        separate_all(rs, m) is None,
    decreases m - i,
{
    if i < m {
        lemma_separate_all_none(rs, i, (m - 1) as nat);
    }
}

/// `perm` lists `n` distinct positions below `n`.
pub open spec fn is_permutation(perm: Seq<int>, n: nat) -> bool {
    &&& perm.len() == n
    &&& forall|i: int| 0 <= i < n ==> 0 <= #[trigger] perm[i] < n
    &&& forall|i: int, j: int| 0 <= i < n && 0 <= j < n && i != j ==> #[trigger] perm[i] != #[trigger] perm[j]
}

/// `d` holds the roots `rs`, each with an equal or narrower range, in the order `perm`.
pub open spec fn refined_permutation(d: Seq<RootView>, rs: Seq<RootView>, perm: Seq<int>) -> bool {
    &&& d.len() == rs.len()
    &&& is_permutation(perm, rs.len())
    &&& forall|i: int| 0 <= i < d.len() ==> within(#[trigger] d[i], rs[perm[i]])
}

/// The roots made pairwise separated, sorted by lower bound, and interleaved
/// with rational sample points below, between and above them; `None` when
/// separating two roots gives up.
#[verifier::spinoff_prover]
#[verifier::rlimit(50)]
pub fn calc_sample_points(roots: &[Root]) -> (r: Option<Vec<Root>>)
    ensures
        r is Some <==> separate_all(roots_view(roots@), roots@.len()) is Some,
        r matches Some(s) ==> exists|d: Seq<RootView>, perm: Seq<int>|
            #[trigger] refined_permutation(d, roots_view(roots@), perm) && sorted_by_lower(d) && pairwise_separated(d)
                && shaped_roots(d) && roots_view(s@) == sample_points_of(d),
        r matches Some(s) ==> forall|k: int|
            0 < k < s@.len() - 1 && k % 2 == 0 ==> ((#[trigger] s@[k])@.range matches RootRange::Exact(q) && qlt(
                upper_bound(s@[k - 1]@.range),
                q,
            ) && qlt(q, lower_bound(s@[k + 1]@.range))),
{
    let ghost rs = roots_view(roots@);
    let mut distinct: Vec<Root> = Vec::new();
    let mut i: usize = 0;
    while i < roots.len()
        invariant
            i <= roots@.len(),
            rs == roots_view(roots@),
            distinct@.len() == i,
            forall|k: int| 0 <= k < i ==> within(#[trigger] roots_view(distinct@)[k], rs[k]),
            forall|k: int| 0 <= k < i ==> root_shape(#[trigger] roots_view(distinct@)[k]),
            pairwise_separated(roots_view(distinct@)),
            separate_all(rs, i as nat) == Some(roots_view(distinct@)),
        decreases roots@.len() - i,
    {
        let mut root = roots[i].duplicate();
        proof {
            use_type_invariant(&root);
            assert(rs[i as int] == root@);
        }
        let ghost d_start = roots_view(distinct@);
        let mut j: usize = 0;
        while j < distinct.len()
            invariant
                i < roots@.len(),
                j <= distinct@.len(),
                distinct@.len() == i,
                rs == roots_view(roots@),
                within(root@, rs[i as int]),
                root_shape(root@),
                root_shape(rs[i as int]),
                forall|k: int| 0 <= k < j ==> separated(root@.range, (#[trigger] roots_view(distinct@)[k]).range),
                forall|k: int| 0 <= k < i ==> within(#[trigger] roots_view(distinct@)[k], rs[k]),
                forall|k: int| 0 <= k < i ==> root_shape(#[trigger] roots_view(distinct@)[k]),
                pairwise_separated(roots_view(distinct@)),
                separate_all(rs, i as nat) == Some(d_start),
                d_start.len() == i,
                insert_root(rs[i as int], d_start, j as nat) == Some((root@, roots_view(distinct@))),
            decreases distinct@.len() - j,
        {
            let rj = &roots[j];
            proof {
                use_type_invariant(rj);
                assert(rs[j as int] == rj@);
            }
            let ghost dv = roots_view(distinct@);
            let ghost r_before = root@;
            let ok = separate_pair(&mut root, &mut distinct[j]);
            if !ok {
                proof {
                    assert(insert_root(rs[i as int], d_start, (j + 1) as nat) is None);
                    lemma_insert_root_none(rs[i as int], d_start, (j + 1) as nat, i as nat);
                    assert(separate_all(rs, (i + 1) as nat) is None);
                    lemma_separate_all_none(rs, (i + 1) as nat, rs.len());
                }
                return None;
            }
            proof {
                let dn = roots_view(distinct@);
                assert(dn =~= dv.update(j as int, dn[j as int]));
                let k = choose|k: nat|
                    #[trigger] first_sep(r_before, dv[j as int], k) && root@ == refine_times(r_before, k) && dn[j as int]
                        == refine_times(dv[j as int], k);
                lemma_insert_step(rs[i as int], d_start, j as nat, r_before, dv, k);
                lemma_within_refl(r_before);
                lemma_within_trans(root@, r_before, rs[i as int]);
                lemma_within_trans(dn[j as int], dv[j as int], rs[j as int]);
                assert forall|k: int| 0 <= k < j + 1 implies separated(root@.range, (#[trigger] dn[k]).range) by {
                    if k < j {
                        lemma_within_refl(dv[k]);
                        lemma_separated_shrink(r_before, dv[k], root@, dv[k]);
                    }
                }
                assert forall|k: int| 0 <= k < i implies within(#[trigger] dn[k], rs[k]) by {
                    if k != j {
                        assert(dn[k] == dv[k]);
                    }
                }
                assert forall|k: int| 0 <= k < i implies root_shape(#[trigger] dn[k]) by {
                    if k != j {
                        assert(dn[k] == dv[k]);
                    }
                }
                assert forall|a: int, b: int| 0 <= a < dn.len() && 0 <= b < dn.len() && a != b implies separated(
                    dn[a].range,
                    dn[b].range,
                ) by {
                    assert(separated(dv[a].range, dv[b].range));
                    lemma_within_refl(dv[a]);
                    lemma_within_refl(dv[b]);
                    lemma_separated_shrink(dv[a], dv[b], dn[a], dn[b]);
                }
            }
            j = j + 1;
        }
        let ghost prev = roots_view(distinct@);
        distinct.push(root);
        proof {
            let dn = roots_view(distinct@);
            assert(dn =~= prev.push(root@));
            assert forall|a: int, b: int| 0 <= a < dn.len() && 0 <= b < dn.len() && a != b implies separated(
                dn[a].range,
                dn[b].range,
            ) by {
                if a == i {
                    assert(separated(root@.range, prev[b].range));
                } else if b == i {
                    assert(separated(root@.range, prev[a].range));
                } else {
                    assert(separated(prev[a].range, prev[b].range));
                }
            }
            assert forall|k: int| 0 <= k < i + 1 implies within(#[trigger] dn[k], rs[k]) by {
                if k < i {
                    assert(dn[k] == prev[k]);
                }
            }
            assert forall|k: int| 0 <= k < i + 1 implies root_shape(#[trigger] dn[k]) by {
                if k < i {
                    assert(dn[k] == prev[k]);
                }
            }
        }
        i = i + 1;
    }
    let ghost dv = roots_view(distinct@);
    let n = distinct.len();
    let mut sorted: Vec<Root> = Vec::new();
    let ghost mut perm: Seq<int> = Seq::empty();
    let mut k: usize = 0;
    while k < n
        invariant
            n == distinct@.len() == dv.len() == rs.len(),
            dv == roots_view(distinct@),
            k <= n,
            sorted@.len() == k,
            perm.len() == k,
            forall|t: int| 0 <= t < k ==> 0 <= #[trigger] perm[t] < k,
            forall|a: int, b: int| 0 <= a < k && 0 <= b < k && a != b ==> #[trigger] perm[a] != #[trigger] perm[b],
            forall|t: int| 0 <= t < k ==> #[trigger] roots_view(sorted@)[t] == dv[perm[t]],
            sorted_by_lower(roots_view(sorted@)),
            forall|t: int| 0 <= t < n ==> root_shape(#[trigger] dv[t]),
        decreases n - k,
    {
        let ghost before = sorted@;
        let x = distinct[k].duplicate();
        let pos = insert_sorted(&mut sorted, x);
        proof {
            let p = pos as int;
            let np = perm.insert(p, k as int);
            assert forall|t: int| 0 <= t < k + 1 implies #[trigger] roots_view(sorted@)[t] == dv[np[t]] by {
                if t < p {
                    assert(sorted@[t] == before[t]);
                    assert(roots_view(before)[t] == dv[perm[t]]);
                } else if t == p {
                } else {
                    assert(sorted@[t] == before[t - 1]);
                    assert(roots_view(before)[t - 1] == dv[perm[t - 1]]);
                }
            }
            assert forall|a: int, b: int| 0 <= a < k + 1 && 0 <= b < k + 1 && a != b implies #[trigger] np[a]
                != #[trigger] np[b] by {
                if a < p && b < p {
                    assert(np[a] == perm[a] && np[b] == perm[b]);
                } else if a < p && b > p {
                    assert(np[a] == perm[a] && np[b] == perm[b - 1]);
                } else if a > p && b < p {
                    assert(np[a] == perm[a - 1] && np[b] == perm[b]);
                } else if a > p && b > p {
                    assert(np[a] == perm[a - 1] && np[b] == perm[b - 1]);
                } else if a == p && b != p {
                    if b < p {
                        assert(np[b] == perm[b]);
                    } else {
                        assert(np[b] == perm[b - 1]);
                    }
                } else {
                    if a < p {
                        assert(np[a] == perm[a]);
                    } else {
                        assert(np[a] == perm[a - 1]);
                    }
                }
            }
            assert forall|t: int| 0 <= t < k + 1 implies 0 <= #[trigger] np[t] < k + 1 by {
                if t < p {
                    assert(np[t] == perm[t]);
                } else if t > p {
                    assert(np[t] == perm[t - 1]);
                }
            }
            perm = np;
        }
        k = k + 1;
    }
    let ghost d = roots_view(sorted@);
    proof {
        assert forall|t: int| 0 <= t < d.len() implies within(#[trigger] d[t], rs[perm[t]]) by {
            assert(d[t] == dv[perm[t]]);
        }
        assert forall|a: int, b: int| 0 <= a < d.len() && 0 <= b < d.len() && a != b implies separated(
            d[a].range,
            d[b].range,
        ) by {
            assert(d[a] == dv[perm[a]]);
            assert(d[b] == dv[perm[b]]);
        }
        assert(refined_permutation(d, rs, perm));
        assert forall|t: int| 0 <= t < d.len() implies root_shape(#[trigger] d[t]) by {
            assert(d[t] == dv[perm[t]]);
        }
        lemma_samples_between(d);
    }
    let samples = build_samples(&sorted);
    proof {
        let sv = roots_view(samples@);
        assert(sv == sample_points_of(d));
        assert(sv.len() == samples@.len());
        if d.len() == 0 {
            assert(sample_points_of(d).len() == 1);
        } else {
            assert(sample_points_of(d).len() == 2 * d.len() + 1);
        }
        assert forall|k: int| 0 < k < samples@.len() - 1 && k % 2 == 0 implies ((#[trigger] samples@[k])@.range matches RootRange::Exact(q)
            && qlt(upper_bound(samples@[k - 1]@.range), q) && qlt(q, lower_bound(samples@[k + 1]@.range))) by {
            let h = k / 2;
            assert(k == 2 * h);
            assert((k - 1) % 2 == 1);
            assert((k + 1) % 2 == 1);
            assert((k - 1 - 1) / 2 == h - 1);
            assert((k + 1 - 1) / 2 == h);
            assert(d.len() > 0);
            assert(sv[k] == samples@[k]@);
            assert(sv[k - 1] == samples@[k - 1]@);
            assert(sv[k + 1] == samples@[k + 1]@);
            assert(sample_points_of(d)[k] == sv[k]);
            assert(sample_points_of(d)[k - 1] == d[h - 1]);
            assert(sample_points_of(d)[k + 1] == d[h]);
        }
    }
    Some(samples)
}

/// The sample points around the sorted roots.
fn build_samples(sorted: &Vec<Root>) -> (r: Vec<Root>)
    ensures
        roots_view(r@) == sample_points_of(roots_view(sorted@)),
{
    let ghost d = roots_view(sorted@);
    let n = sorted.len();
    let mut out: Vec<Root> = Vec::new();
    if n == 0 {
        out.push(Root::new_rational(Rat::from_i64(0)));
        proof {
            assert(roots_view(out@) =~= seq![rational_root(qint(0))]);
        }
        return out;
    }
    let ghost target = sample_points_of(d);
    let first_lower = sorted[0].get_lower_bound();
    out.push(Root::new_rational(first_lower.sub(&Rat::from_i64(1))));
    out.push(sorted[0].duplicate());
    let mut i: usize = 1;
    while i < n
        invariant
            n == sorted@.len() == d.len(),
            d == roots_view(sorted@),
            target == sample_points_of(d),
            1 <= i <= n,
            out@.len() == 2 * i,
            forall|t: int| 0 <= t < 2 * i ==> #[trigger] roots_view(out@)[t] == target[t],
        decreases n - i,
    {
        let s_upper = sorted[i - 1].get_upper_bound();
        let t_lower = sorted[i].get_lower_bound();
        let mid = s_upper.add(&t_lower).div(&Rat::from_i64(2));
        let ghost prev = out@;
        out.push(Root::new_rational(mid));
        out.push(sorted[i].duplicate());
        proof {
            assert forall|t: int| 0 <= t < 2 * i + 2 implies #[trigger] roots_view(out@)[t] == target[t] by {
                if t < 2 * i {
                    assert(out@[t] == prev[t]);
                    assert(roots_view(prev)[t] == target[t]);
                } else if t == 2 * i {
                    assert(d[i - 1] == sorted@[i - 1]@);
                    assert(d[i as int] == sorted@[i as int]@);
                } else {
                    assert(d[i as int] == sorted@[i as int]@);
                }
            }
        }
        i = i + 1;
    }
    let last_upper = sorted[n - 1].get_upper_bound();
    let ghost prev = out@;
    out.push(Root::new_rational(last_upper.add(&Rat::from_i64(1))));
    proof {
        assert(d[n - 1] == sorted@[n - 1]@);
        assert(d[0] == sorted@[0]@);
        assert forall|t: int| 0 <= t < 2 * n + 1 implies #[trigger] roots_view(out@)[t] == target[t] by {
            if t < 2 * n {
                assert(out@[t] == prev[t]);
                assert(roots_view(prev)[t] == target[t]);
            }
        }
        assert(roots_view(out@) =~= target);
    }
    out
}

} // verus!
