//! Langley's problem of adventitious angles written as polynomial
//! constraints (in the text syntax of constraints).
use crate::number::trem;
use vstd::prelude::*;
use vstd::string::StringExecFns;

verus! {

/// An angle for which no constraint can be written.
#[derive(Debug, PartialEq, Eq, Clone, Copy)]
pub enum LangleyError {
    /// Twice the angle, reduced to 0..=180 degrees, is not a multiple of 20 degrees.
    UnsupportedAngle(i32),
}

/// Twice `theta`, reduced modulo 360 degrees and folded into 0..=180.
pub open spec fn doubled_angle(theta: int) -> int {
    let t = trem(theta * 2, 360);
    let t = if t < 0 { t + 360 } else { t };
    if t > 180 { 360 - t } else { t }
}

/// The text `(2 * var - 1)`: `cos(2 theta)` written with `var = cos^2(theta)`.
pub open spec fn cos_double_text(var: Seq<char>) -> Seq<char> {
    "(2 * "@ + var + " - 1)"@
}

/// The equation (as text, `= 0` left implicit) that `var = cos^2(theta)`
/// satisfies, from `cos(3x) = 4 cos^3(x) - 3 cos(x)` when twice `theta` is
/// a multiple of 20 degrees; `None` otherwise.
pub open spec fn cos_squared_text(theta: int, var: Seq<char>) -> Option<Seq<char>> {
    let t = doubled_angle(theta);
    let c = cos_double_text(var);
    if t == 0 {
        Some(c + "-1"@)
    } else if t == 20 || t == 100 || t == 140 {
        Some("8*"@ + c + "^3-6*"@ + c + "-1"@)
    } else if t == 40 || t == 80 || t == 160 {
        Some("8*"@ + c + "^3-6*"@ + c + "+1"@)
    } else if t == 60 {
        Some("2*"@ + c + "-1"@)
    } else if t == 120 {
        Some("2*"@ + c + "+1"@)
    } else if t == 180 {
        Some(c + "+1"@)
    } else {
        None
    }
}

spec fn tdiv_small(a: int) -> bool {
    crate::number::tdiv(a, 360) == 0
}

/// The text of an equation that `var = cos^2(theta)` satisfies.
fn cos_squared(theta: i32, var: &str) -> (r: Result<String, LangleyError>)
    ensures
        match r {
            Ok(s) => cos_squared_text(theta as int, var@) == Some(s@),
            Err(e) => cos_squared_text(theta as int, var@) is None && e == LangleyError::UnsupportedAngle(theta),
        },
{
    let doubled: i64 = theta as i64 * 2;
    let t: i64 = doubled % 360;
    let t: i64 = if t < 0 { t + 360 } else { t };
    let t: i64 = if t > 180 { 360 - t } else { t };
    assert(t == doubled_angle(theta as int));
    let mut c = String::from_str("(2 * ");
    c.append(var);
    c.append(" - 1)");
    assert(c@ == cos_double_text(var@));
    if t == 0 {
        let mut s = c.clone();
        s.append("-1");
        Ok(s)
    } else if t == 20 || t == 100 || t == 140 || t == 40 || t == 80 || t == 160 {
        let mut s = String::from_str("8*");
        s.append(c.as_str());
        s.append("^3-6*");
        s.append(c.as_str());
        if t == 20 || t == 100 || t == 140 {
            s.append("-1");
        } else {
            s.append("+1");
        }
        Ok(s)
    } else if t == 60 || t == 120 {
        let mut s = String::from_str("2*");
        s.append(c.as_str());
        if t == 60 {
            s.append("-1");
        } else {
            s.append("+1");
        }
        Ok(s)
    } else if t == 180 {
        let mut s = c.clone();
        s.append("+1");
        Ok(s)
    } else {
        Err(LangleyError::UnsupportedAngle(theta))
    }
}

/// The text `(p - q)`.
pub open spec fn diff_text(p: Seq<char>, q: Seq<char>) -> Seq<char> {
    "("@ + p + " - "@ + q + ")"@
}

/// The constraint that the angle between `a - o` and `b - o` has squared
/// cosine `cos2`: `(A . B)^2 - cos2 * |A|^2 * |B|^2`, as text.
pub open spec fn inner_product_text(
    a: (Seq<char>, Seq<char>),
    o: (Seq<char>, Seq<char>),
    b: (Seq<char>, Seq<char>),
    cos2: Seq<char>,
) -> Seq<char> {
    let ax = diff_text(a.0, o.0);
    let ay = diff_text(a.1, o.1);
    let bx = diff_text(b.0, o.0);
    let by = diff_text(b.1, o.1);
    let inner = "("@ + ax + "*"@ + bx + "+"@ + ay + "*"@ + by + ")^2"@;
    let a_sq = "("@ + ax + "^2 + "@ + ay + "^2)"@;
    let b_sq = "("@ + bx + "^2 + "@ + by + "^2)"@;
    inner + " - "@ + cos2 + " * "@ + a_sq + " * "@ + b_sq
}

/// The text `(p - q)`.
fn diff_string(p: &str, q: &str) -> (r: String)
    ensures
        r@ == diff_text(p@, q@),
{
    let mut s = String::from_str("(");
    s.append(p);
    s.append(" - ");
    s.append(q);
    s.append(")");
    s
}

/// The constraint of `inner_product_text`.
fn inner_product_constraint(a: (&str, &str), o: (&str, &str), b: (&str, &str), cos2_theta: &str) -> (r: String)
    ensures
        r@ == inner_product_text((a.0@, a.1@), (o.0@, o.1@), (b.0@, b.1@), cos2_theta@),
{
    let a_x = diff_string(a.0, o.0);
    let a_y = diff_string(a.1, o.1);
    let b_x = diff_string(b.0, o.0);
    let b_y = diff_string(b.1, o.1);
    let mut inner = String::from_str("(");
    inner.append(a_x.as_str());
    inner.append("*");
    inner.append(b_x.as_str());
    inner.append("+");
    inner.append(a_y.as_str());
    inner.append("*");
    inner.append(b_y.as_str());
    inner.append(")^2");
    let mut a_sq = String::from_str("(");
    a_sq.append(a_x.as_str());
    a_sq.append("^2 + ");
    a_sq.append(a_y.as_str());
    a_sq.append("^2)");
    let mut b_sq = String::from_str("(");
    b_sq.append(b_x.as_str());
    b_sq.append("^2 + ");
    b_sq.append(b_y.as_str());
    b_sq.append("^2)");
    let mut s = inner;
    s.append(" - ");
    s.append(cos2_theta);
    s.append(" * ");
    s.append(a_sq.as_str());
    s.append(" * ");
    s.append(b_sq.as_str());
    s
}

/// The constraints of Langley's problem, as text: the squared cosines of
/// 20, 30, 50 and 60 degrees; the angles CBD = 60, DBA = 20, DCA = 30 and
/// ACB = 50 degrees; `B` at the origin and `C` at `(1, 0)`.
pub open spec fn langley_texts() -> Seq<Seq<char>> {
    let a = ("a_x"@, "a_y"@);
    let b = ("b_x"@, "b_y"@);
    let c = ("c_x"@, "c_y"@);
    let d = ("d_x"@, "d_y"@);
    seq![
        cos_squared_text(20, "cos2_20"@)->0,
        cos_squared_text(30, "cos2_30"@)->0,
        cos_squared_text(50, "cos2_50"@)->0,
        cos_squared_text(60, "cos2_60"@)->0,
        inner_product_text(c, b, d, "cos2_60"@),
        inner_product_text(d, b, a, "cos2_20"@),
        inner_product_text(d, c, a, "cos2_30"@),
        inner_product_text(a, c, b, "cos2_50"@),
        b.0,
        b.1,
        c.0 + "-1"@,
        c.1
    ]
}

/// The constraints of Langley's problem (`langley_texts`).
pub fn generate_langley_polynomials() -> (r: Result<Vec<String>, LangleyError>)
    ensures
        r matches Ok(v) && v@.len() == langley_texts().len() && forall|i: int|
            0 <= i < v@.len() ==> (#[trigger] v@[i])@ == langley_texts()[i],
{
    let a = ("a_x", "a_y");
    let b = ("b_x", "b_y");
    let c = ("c_x", "c_y");
    let d = ("d_x", "d_y");
    let cos2_20 = "cos2_20";
    let cos2_30 = "cos2_30";
    let cos2_50 = "cos2_50";
    let cos2_60 = "cos2_60";
    proof {
        assert(crate::number::iabs(360) == 360);
        assert(crate::number::iabs(40) == 40 && crate::number::iabs(60) == 60);
        assert(crate::number::iabs(100) == 100 && crate::number::iabs(120) == 120);
        assert(tdiv_small(40) && tdiv_small(60) && tdiv_small(100) && tdiv_small(120));
        assert(doubled_angle(20) == 40);
        assert(doubled_angle(30) == 60);
        assert(doubled_angle(50) == 100);
        assert(doubled_angle(60) == 120);
    }
    let mut constraints: Vec<String> = Vec::new();
    constraints.push(
        match cos_squared(20, cos2_20) {
            Ok(s) => s,
            Err(e) => {
                return Err(e);
            },
        },
    );
    constraints.push(
        match cos_squared(30, cos2_30) {
            Ok(s) => s,
            Err(e) => {
                return Err(e);
            },
        },
    );
    constraints.push(
        match cos_squared(50, cos2_50) {
            Ok(s) => s,
            Err(e) => {
                return Err(e);
            },
        },
    );
    constraints.push(
        match cos_squared(60, cos2_60) {
            Ok(s) => s,
            Err(e) => {
                return Err(e);
            },
        },
    );
    constraints.push(inner_product_constraint(c, b, d, cos2_60));
    constraints.push(inner_product_constraint(d, b, a, cos2_20));
    constraints.push(inner_product_constraint(d, c, a, cos2_30));
    constraints.push(inner_product_constraint(a, c, b, cos2_50));
    constraints.push(String::from_str(b.0));
    constraints.push(String::from_str(b.1));
    let mut cx = String::from_str(c.0);
    cx.append("-1");
    constraints.push(cx);
    constraints.push(String::from_str(c.1));
    proof {
        let t = langley_texts();
        assert forall|i: int| 0 <= i < constraints@.len() implies (#[trigger] constraints@[i])@ == t[i] by {}
    }
    Ok(constraints)
}

} // verus!
