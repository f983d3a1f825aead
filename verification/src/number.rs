//! Arbitrary-precision integers and rationals.
//!
//! `Int` and `Rat` hold their values as plain bytes (two's complement,
//! little endian), so that contracts can speak of them as mathematical
//! integers and reduced fractions.  All arithmetic is done by the `num`
//! crate; each call stands behind one small trusted wrapper below.
use num::bigint::BigInt;
use num::rational::BigRational;
use num::traits::{One, Pow, Signed, ToPrimitive, Zero};
use num::Integer;
use vstd::arithmetic::div_mod::{lemma_fundamental_div_mod, lemma_mod_bound, lemma_mod_multiples_basic, lemma_mod_self_0, lemma_small_mod};
use vstd::arithmetic::power::pow;
use vstd::arithmetic::power2::pow2;
use vstd::prelude::*;

verus! {

// ---------------------------------------------------------------------------
// Mathematical model
// ---------------------------------------------------------------------------
/// Unsigned value of little-endian bytes.
pub open spec fn le_unsigned(s: Seq<u8>) -> nat
    decreases s.len(),
{
    if s.len() == 0 {
        0
    } else {
        s[0] as nat + 256 * le_unsigned(s.skip(1))
    }
}

/// 256 to the power `k`.
pub open spec fn pow256(k: nat) -> nat
    decreases k,
{
    if k == 0 {
        1
    } else {
        256 * pow256((k - 1) as nat)
    }
}

/// Two's complement value of little-endian bytes.
pub open spec fn le_signed(s: Seq<u8>) -> int {
    if s.len() > 0 && s.last() >= 128 {
        le_unsigned(s) - pow256(s.len())
    } else {
        le_unsigned(s) as int
    }
}

pub open spec fn iabs(x: int) -> nat {
    if x < 0 {
        (-x) as nat
    } else {
        x as nat
    }
}

/// Greatest common divisor (Euclid); `gcd(a, 0) == a`.
pub open spec fn gcd(a: nat, b: nat) -> nat
    decreases b,
{
    if b == 0 {
        a
    } else {
        gcd(b, a % b)
    }
}

/// Non-negative least common multiple, zero when both are zero.
pub open spec fn ilcm(a: int, b: int) -> int {
    if a == 0 && b == 0 {
        0
    } else {
        ((iabs(a) / gcd(iabs(a), iabs(b))) * iabs(b)) as int
    }
}

/// Quotient rounded toward zero.
pub open spec fn tdiv(a: int, b: int) -> int {
    let q = (iabs(a) / iabs(b)) as int;
    if (a < 0) != (b < 0) {
        -q
    } else {
        q
    }
}

/// Remainder whose sign follows the dividend.
pub open spec fn trem(a: int, b: int) -> int {
    a - b * tdiv(a, b)
}

/// A rational number as a pair numerator / denominator.
pub struct Q {
    pub n: int,
    pub d: int,
}

/// Reduced form of `n / d`: positive denominator, coprime parts, `0 / 1` for zero.
pub open spec fn qnorm(n: int, d: int) -> Q {
    let g = gcd(iabs(n), iabs(d)) as int;
    if d < 0 {
        Q { n: -(n / g), d: -(d / g) }
    } else {
        Q { n: n / g, d: d / g }
    }
}

/// `q` is in reduced form.
pub open spec fn qcanon(q: Q) -> bool {
    q.d > 0 && gcd(iabs(q.n), q.d as nat) == 1
}

pub open spec fn qint(k: int) -> Q {
    Q { n: k, d: 1 }
}

pub open spec fn qadd(a: Q, b: Q) -> Q {
    qnorm(a.n * b.d + b.n * a.d, a.d * b.d)
}

pub open spec fn qsub(a: Q, b: Q) -> Q {
    qnorm(a.n * b.d - b.n * a.d, a.d * b.d)
}

pub open spec fn qmul(a: Q, b: Q) -> Q {
    qnorm(a.n * b.n, a.d * b.d)
}

pub open spec fn qdiv(a: Q, b: Q) -> Q {
    qnorm(a.n * b.d, a.d * b.n)
}

pub open spec fn qneg(a: Q) -> Q {
    Q { n: -a.n, d: a.d }
}

pub open spec fn qabs(a: Q) -> Q {
    Q { n: iabs(a.n) as int, d: a.d }
}

pub open spec fn qpow(a: Q, e: nat) -> Q {
    qnorm(pow(a.n, e), pow(a.d, e))
}

/// `a < b` for fractions with positive denominators.
pub open spec fn qlt(a: Q, b: Q) -> bool {
    a.n * b.d < b.n * a.d
}

pub open spec fn qle(a: Q, b: Q) -> bool {
    a.n * b.d <= b.n * a.d
}

/// `gcd(a, b)` is positive unless both are zero.
pub proof fn lemma_gcd_pos(a: nat, b: nat)
    requires
        a > 0 || b > 0,
    ensures
        gcd(a, b) > 0,
    decreases b,
{
    if b > 0 {
        lemma_gcd_pos(b, a % b);
    }
}

/// `gcd(a, b)` divides both arguments.
pub proof fn lemma_gcd_divides(a: nat, b: nat)
    requires
        gcd(a, b) > 0,
    ensures
        a % gcd(a, b) == 0,
        b % gcd(a, b) == 0,
    decreases b,
{
    let g = gcd(a, b);
    if b == 0 {
        lemma_mod_self_0(a as int);
        lemma_small_mod(0, g);
    } else {
        lemma_gcd_divides(b, a % b);
        let r = a % b;
        lemma_fundamental_div_mod(a as int, b as int);
        lemma_fundamental_div_mod(b as int, g as int);
        lemma_fundamental_div_mod(r as int, g as int);
        let kb = b as int / g as int;
        let kr = r as int / g as int;
        let q = a as int / b as int;
        assert(a as int == g * (kb * q + kr)) by (nonlinear_arith)
            requires
                a as int == b * q + r,
                b as int == g * kb,
                r as int == g * kr,
        ;
        lemma_mod_multiples_basic(kb * q + kr, g as int);
        assert((kb * q + kr) * g == g * (kb * q + kr)) by (nonlinear_arith);
    }
}

/// Bezout's identity: `gcd(a, b)` is an integer combination of `a` and `b`.
pub proof fn lemma_bezout(a: nat, b: nat) -> (st: (int, int))
    ensures
        st.0 * a + st.1 * b == gcd(a, b),
    decreases b,
{
    if b == 0 {
        (1, 0)
    } else {
        let r = a % b;
        let (s1, t1) = lemma_bezout(b, r);
        lemma_fundamental_div_mod(a as int, b as int);
        let q = a as int / b as int;
        assert(s1 * b + t1 * r == gcd(a, b));
        assert(t1 * a + (s1 - t1 * q) * b == s1 * b + t1 * r) by (nonlinear_arith)
            requires
                a as int == b * q + r,
        ;
        (t1, s1 - t1 * q)
    }
}

/// Two reduced fractions with the same value are the same.
pub proof fn lemma_qcanon_unique(a: Q, b: Q)
    requires
        qcanon(a),
        qcanon(b),
        a.n * b.d == b.n * a.d,
    ensures
        a == b,
{
    let (s1, t1) = lemma_bezout(iabs(a.n), a.d as nat);
    let (s2, t2) = lemma_bezout(iabs(b.n), b.d as nat);
    let an = iabs(a.n) as int;
    let bn = iabs(b.n) as int;
    let sa: int = if a.n < 0 { -1 } else { 1 };
    let sb: int = if b.n < 0 { -1 } else { 1 };
    if a.n < 0 {
        assert(an == -a.n);
    } else {
        assert(an == a.n);
    }
    if b.n < 0 {
        assert(bn == -b.n);
    } else {
        assert(bn == b.n);
    }
    assert(an == sa * a.n);
    assert(bn == sb * b.n);
    let k1 = s1 * sa * b.n + t1 * b.d;
    assert(b.d * (s1 * an + t1 * a.d) == s1 * (an * b.d) + t1 * (a.d * b.d)) by (nonlinear_arith);
    assert(an * b.d == sa * (b.n * a.d)) by (nonlinear_arith)
        requires
            an == sa * a.n,
            a.n * b.d == b.n * a.d,
    ;
    let u1 = s1 * sa * b.n;
    let v1 = t1 * b.d;
    assert(s1 * (sa * (b.n * a.d)) == a.d * u1) by (nonlinear_arith)
        requires
            u1 == s1 * sa * b.n,
    ;
    assert(t1 * (a.d * b.d) == a.d * v1) by (nonlinear_arith)
        requires
            v1 == t1 * b.d,
    ;
    assert(a.d * (u1 + v1) == a.d * u1 + a.d * v1) by (nonlinear_arith);
    assert(k1 == u1 + v1);
    assert(b.d == a.d * k1);
    let k2 = s2 * sb * a.n + t2 * a.d;
    assert(a.d * (s2 * bn + t2 * b.d) == s2 * (bn * a.d) + t2 * (b.d * a.d)) by (nonlinear_arith);
    assert(bn * a.d == sb * (a.n * b.d)) by (nonlinear_arith)
        requires
            bn == sb * b.n,
            a.n * b.d == b.n * a.d,
    ;
    let u2 = s2 * sb * a.n;
    let v2 = t2 * a.d;
    assert(s2 * (sb * (a.n * b.d)) == b.d * u2) by (nonlinear_arith)
        requires
            u2 == s2 * sb * a.n,
    ;
    assert(t2 * (b.d * a.d) == b.d * v2) by (nonlinear_arith)
        requires
            v2 == t2 * a.d,
    ;
    assert(b.d * (u2 + v2) == b.d * u2 + b.d * v2) by (nonlinear_arith);
    assert(k2 == u2 + v2);
    assert(a.d == b.d * k2);
    assert(k1 > 0) by (nonlinear_arith)
        requires
            b.d == a.d * k1,
            a.d > 0,
            b.d > 0,
    ;
    assert(k2 > 0) by (nonlinear_arith)
        requires
            a.d == b.d * k2,
            a.d > 0,
            b.d > 0,
    ;
    assert(k1 * k2 == 1) by (nonlinear_arith)
        requires
            b.d == a.d * k1,
            a.d == b.d * k2,
            a.d > 0,
    ;
    assert(k1 == 1) by (nonlinear_arith)
        requires
            k1 * k2 == 1,
            k1 > 0,
            k2 > 0,
    ;
    assert(a.d == b.d);
    assert(a.n == b.n) by (nonlinear_arith)
        requires
            a.n * b.d == b.n * a.d,
            a.d == b.d,
            a.d > 0,
    ;
}

/// The numerator of a reduced fraction is zero exactly when the original one is.
pub proof fn lemma_qnorm_zero(n: int, d: int)
    requires
        d != 0,
    ensures
        (qnorm(n, d).n == 0) <==> (n == 0),
        qnorm(n, d).d > 0,
{
    let g = gcd(iabs(n), iabs(d));
    lemma_gcd_pos(iabs(n), iabs(d));
    lemma_gcd_divides(iabs(n), iabs(d));
    lemma_fundamental_div_mod(n, g as int);
    lemma_mod_bound(n, g as int);
    lemma_fundamental_div_mod(d, g as int);
    lemma_mod_bound(d, g as int);
    if n >= 0 {
        assert(n % (g as int) == 0);
    }
    if n == 0 {
        assert(n / (g as int) == 0);
    }
    if n / (g as int) == 0 {
        assert((g as int) * (n / (g as int)) == 0) by (nonlinear_arith)
            requires
                n / (g as int) == 0,
        ;
        assert(n == 0);
    }
    if d > 0 {
        assert(d % (g as int) == 0);
        assert(d / (g as int) > 0) by (nonlinear_arith)
            requires
                d == g * (d / (g as int)) + d % (g as int),
                d % (g as int) == 0,
                d > 0,
                g > 0,
        ;
    } else {
        assert((-d) % (g as int) == 0);
        lemma_fundamental_div_mod(-d, g as int);
        assert((-d) / (g as int) > 0) by (nonlinear_arith)
            requires
                -d == g * ((-d) / (g as int)) + (-d) % (g as int),
                (-d) % (g as int) == 0,
                -d > 0,
                g > 0,
        ;
        assert(d / (g as int) < 0) by (nonlinear_arith)
            requires
                d == g * (d / (g as int)) + d % (g as int),
                0 <= d % (g as int) < g,
                d < 0,
                g > 0,
        ;
    }
}

/// An integer whose absolute value is a multiple of `g` is `g` times its quotient.
proof fn lemma_div_exact(n: int, g: int)
    requires
        g > 0,
        (iabs(n) as int) % g == 0,
    ensures
        n == g * (n / g),
{
    lemma_fundamental_div_mod(n, g);
    lemma_mod_bound(n, g);
    if n < 0 {
        lemma_fundamental_div_mod(-n, g);
        lemma_mod_multiples_basic(-((-n) / g), g);
        assert(-((-n) / g) * g == n) by (nonlinear_arith)
            requires
                -n == g * ((-n) / g) + (-n) % g,
                (-n) % g == 0,
        ;
    }
}

/// Reducing a fraction keeps its value and gives a positive denominator.
pub proof fn lemma_qnorm_value(n: int, d: int)
    requires
        d != 0,
    ensures
        qnorm(n, d).n * d == n * qnorm(n, d).d,
        qnorm(n, d).d > 0,
{
    let g = gcd(iabs(n), iabs(d));
    lemma_gcd_pos(iabs(n), iabs(d));
    lemma_gcd_divides(iabs(n), iabs(d));
    let gi = g as int;
    lemma_div_exact(n, gi);
    lemma_div_exact(d, gi);
    lemma_qnorm_zero(n, d);
    assert((n / gi) * d == n * (d / gi)) by (nonlinear_arith)
        requires
            n == gi * (n / gi),
            d == gi * (d / gi),
    ;
    if d < 0 {
        assert((-(n / gi)) * d == n * (-(d / gi))) by (nonlinear_arith)
            requires
                (n / gi) * d == n * (d / gi),
        ;
    }
}

/// Reducing a fraction with a positive denominator keeps the sign of the numerator.
pub proof fn lemma_qnorm_sign(n: int, d: int)
    requires
        d > 0,
    ensures
        (qnorm(n, d).n > 0) <==> (n > 0),
        (qnorm(n, d).n < 0) <==> (n < 0),
{
    let g = gcd(iabs(n), iabs(d));
    lemma_gcd_pos(iabs(n), iabs(d));
    lemma_gcd_divides(iabs(n), iabs(d));
    lemma_fundamental_div_mod(n, g as int);
    lemma_mod_bound(n, g as int);
    let gi = g as int;
    if n >= 0 {
        assert(n % gi == 0);
        assert(n == gi * (n / gi));
    } else {
        assert((-n) % gi == 0);
        lemma_fundamental_div_mod(-n, gi);
        assert(n % gi == 0) by {
            lemma_mod_multiples_basic(-((-n) / gi), gi);
            assert(-((-n) / gi) * gi == n) by (nonlinear_arith)
                requires
                    -n == gi * ((-n) / gi) + (-n) % gi,
                    (-n) % gi == 0,
            ;
        }
        assert(n == gi * (n / gi));
    }
    assert((n / gi > 0) <==> (n > 0)) by (nonlinear_arith)
        requires
            n == gi * (n / gi),
            gi > 0,
    ;
    assert((n / gi < 0) <==> (n < 0)) by (nonlinear_arith)
        requires
            n == gi * (n / gi),
            gi > 0,
    ;
}

/// The order on fractions with positive denominators is transitive.
pub proof fn lemma_q_order_trans(a: Q, b: Q, c: Q)
    requires
        a.d > 0,
        b.d > 0,
        c.d > 0,
    ensures
        qle(a, b) && qle(b, c) ==> qle(a, c),
        qlt(a, b) && qle(b, c) ==> qlt(a, c),
        qle(a, b) && qlt(b, c) ==> qlt(a, c),
        qlt(a, b) ==> qle(a, b),
{
    if qle(a, b) && qle(b, c) {
        assert(a.n * c.d <= c.n * a.d) by (nonlinear_arith)
            requires
                a.n * b.d <= b.n * a.d,
                b.n * c.d <= c.n * b.d,
                a.d > 0,
                b.d > 0,
                c.d > 0,
        ;
    }
    if qlt(a, b) && qle(b, c) {
        assert(a.n * c.d < c.n * a.d) by (nonlinear_arith)
            requires
                a.n * b.d < b.n * a.d,
                b.n * c.d <= c.n * b.d,
                a.d > 0,
                b.d > 0,
                c.d > 0,
        ;
    }
    if qle(a, b) && qlt(b, c) {
        assert(a.n * c.d < c.n * a.d) by (nonlinear_arith)
            requires
                a.n * b.d <= b.n * a.d,
                b.n * c.d < c.n * b.d,
                a.d > 0,
                b.d > 0,
                c.d > 0,
        ;
    }
}

/// Multiplying a reduced fraction by minus one only flips its sign.
pub proof fn lemma_qmul_minus_one(a: Q)
    requires
        qcanon(a),
    ensures
        qmul(a, qint(-1)) == qneg(a),
{
    assert(a.n * -1 == -a.n);
    assert(a.d * 1 == a.d);
    assert(iabs(-a.n) == iabs(a.n));
    assert(iabs(a.d) == a.d);
    assert(gcd(iabs(-a.n), iabs(a.d)) == 1);
    assert((-a.n) / 1 == -a.n);
    assert(a.d / 1 == a.d);
}

/// A product of non-zero rationals is non-zero.
pub proof fn lemma_qmul_nonzero(a: Q, b: Q)
    requires
        a.n != 0,
        b.n != 0,
        a.d != 0,
        b.d != 0,
    ensures
        qmul(a, b).n != 0,
{
    assert(a.n * b.n != 0) by (nonlinear_arith)
        requires
            a.n != 0,
            b.n != 0,
    ;
    assert(a.d * b.d != 0) by (nonlinear_arith)
        requires
            a.d != 0,
            b.d != 0,
    ;
    lemma_qnorm_zero(a.n * b.n, a.d * b.d);
}

// ---------------------------------------------------------------------------
// Integers
// ---------------------------------------------------------------------------
/// An arbitrary-precision integer.
pub struct Int {
    bytes: Vec<u8>,
}

impl View for Int {
    type V = int;

    closed spec fn view(&self) -> int {
        le_signed(self.bytes@)
    }
}

impl Int {
    /// A copy with the same value.
    pub fn duplicate(&self) -> (r: Int)
        ensures
            r@ == self@,
    {
        let mut bytes: Vec<u8> = Vec::new();
        let mut i: usize = 0;
        while i < self.bytes.len()
            invariant
                i <= self.bytes@.len(),
                bytes@ == self.bytes@.subrange(0, i as int),
            decreases self.bytes@.len() - i,
        {
            bytes.push(self.bytes[i]);
            i = i + 1;
        }
        assert(bytes@ == self.bytes@);
        Int { bytes }
    }

    /// Wraps `BigInt::from(i64)`.
    #[verifier::external_body]
    pub fn from_i64(x: i64) -> (r: Int)
        ensures
            r@ == x as int,
    {
        Int { bytes: BigInt::from(x).to_signed_bytes_le() }
    }

    /// Wraps `BigInt::from(usize)`.
    #[verifier::external_body]
    pub fn from_usize(x: usize) -> (r: Int)
        ensures
            r@ == x as int,
    {
        Int { bytes: BigInt::from(x).to_signed_bytes_le() }
    }

    /// Wraps `BigInt + BigInt`.
    #[verifier::external_body]
    pub fn add(&self, other: &Int) -> (r: Int)
        ensures
            r@ == self@ + other@,
    {
        let s = BigInt::from_signed_bytes_le(&self.bytes) + BigInt::from_signed_bytes_le(&other.bytes);
        Int { bytes: s.to_signed_bytes_le() }
    }

    /// Wraps `BigInt - BigInt`.
    #[verifier::external_body]
    pub fn sub(&self, other: &Int) -> (r: Int)
        ensures
            r@ == self@ - other@,
    {
        let s = BigInt::from_signed_bytes_le(&self.bytes) - BigInt::from_signed_bytes_le(&other.bytes);
        Int { bytes: s.to_signed_bytes_le() }
    }

    /// Wraps `BigInt * BigInt`.
    #[verifier::external_body]
    pub fn mul(&self, other: &Int) -> (r: Int)
        ensures
            r@ == self@ * other@,
    {
        let s = BigInt::from_signed_bytes_le(&self.bytes) * BigInt::from_signed_bytes_le(&other.bytes);
        Int { bytes: s.to_signed_bytes_le() }
    }

    /// Wraps `-BigInt`.
    #[verifier::external_body]
    pub fn neg(&self) -> (r: Int)
        ensures
            r@ == -self@,
    {
        Int { bytes: (-BigInt::from_signed_bytes_le(&self.bytes)).to_signed_bytes_le() }
    }

    /// Wraps `Signed::abs` on `BigInt`.
    #[verifier::external_body]
    pub fn abs(&self) -> (r: Int)
        ensures
            r@ == iabs(self@) as int,
    {
        Int { bytes: BigInt::from_signed_bytes_le(&self.bytes).abs().to_signed_bytes_le() }
    }

    /// Wraps `BigInt / BigInt` (rounds toward zero; panics on zero divisor).
    #[verifier::external_body]
    pub fn div_trunc(&self, other: &Int) -> (r: Int)
        requires
            other@ != 0,
        ensures
            r@ == tdiv(self@, other@),
    {
        let s = BigInt::from_signed_bytes_le(&self.bytes) / BigInt::from_signed_bytes_le(&other.bytes);
        Int { bytes: s.to_signed_bytes_le() }
    }

    /// Wraps `BigInt % BigInt` (sign of the dividend; panics on zero divisor).
    #[verifier::external_body]
    pub fn rem_trunc(&self, other: &Int) -> (r: Int)
        requires
            other@ != 0,
        ensures
            r@ == trem(self@, other@),
    {
        let s = BigInt::from_signed_bytes_le(&self.bytes) % BigInt::from_signed_bytes_le(&other.bytes);
        Int { bytes: s.to_signed_bytes_le() }
    }

    /// Wraps `Integer::lcm` on `BigInt`.
    #[verifier::external_body]
    pub fn lcm(&self, other: &Int) -> (r: Int)
        ensures
            r@ == ilcm(self@, other@),
    {
        let s = BigInt::from_signed_bytes_le(&self.bytes).lcm(&BigInt::from_signed_bytes_le(&other.bytes));
        Int { bytes: s.to_signed_bytes_le() }
    }

    /// Wraps `BigInt::pow(u32)`.
    #[verifier::external_body]
    pub fn pow(&self, e: u32) -> (r: Int)
        ensures
            r@ == pow(self@, e as nat),
    {
        Int { bytes: BigInt::from_signed_bytes_le(&self.bytes).pow(e).to_signed_bytes_le() }
    }

    /// Wraps `BigInt::bits`: the fewest bits that hold the absolute value.
    #[verifier::external_body]
    pub fn bits(&self) -> (r: u64)
        ensures
            pow2(r as nat) > iabs(self@),
            r == 0 || pow2((r - 1) as nat) <= iabs(self@),
    {
        BigInt::from_signed_bytes_le(&self.bytes).bits()
    }

    /// Wraps `BigInt::sqrt` (the floor of the square root; panics on negatives).
    #[verifier::external_body]
    pub fn sqrt(&self) -> (r: Int)
        requires
            self@ >= 0,
        ensures
            r@ >= 0,
            r@ * r@ <= self@ < (r@ + 1) * (r@ + 1),
    {
        Int { bytes: BigInt::from_signed_bytes_le(&self.bytes).sqrt().to_signed_bytes_le() }
    }

    /// Wraps `ToPrimitive::to_usize` on `BigInt`.
    #[verifier::external_body]
    pub fn to_usize(&self) -> (r: Option<usize>)
        ensures
            r is Some <==> 0 <= self@ <= usize::MAX,
            r matches Some(v) ==> v as int == self@,
    {
        BigInt::from_signed_bytes_le(&self.bytes).to_usize()
    }

    /// Wraps `Zero::is_zero` on `BigInt`.
    #[verifier::external_body]
    pub fn is_zero(&self) -> (r: bool)
        ensures
            r == (self@ == 0),
    {
        BigInt::from_signed_bytes_le(&self.bytes).is_zero()
    }

    /// Wraps `One::is_one` on `BigInt`.
    #[verifier::external_body]
    pub fn is_one(&self) -> (r: bool)
        ensures
            r == (self@ == 1),
    {
        BigInt::from_signed_bytes_le(&self.bytes).is_one()
    }

    /// Wraps `BigInt == BigInt`.
    #[verifier::external_body]
    pub fn eq(&self, other: &Int) -> (r: bool)
        ensures
            r == (self@ == other@),
    {
        BigInt::from_signed_bytes_le(&self.bytes) == BigInt::from_signed_bytes_le(&other.bytes)
    }

    /// Wraps `BigInt < BigInt`.
    #[verifier::external_body]
    pub fn lt(&self, other: &Int) -> (r: bool)
        ensures
            r == (self@ < other@),
    {
        BigInt::from_signed_bytes_le(&self.bytes) < BigInt::from_signed_bytes_le(&other.bytes)
    }
}

/// The decimal digit `d` (below 10).
pub open spec fn digit_char(d: nat) -> char {
    if d == 0 { '0' } else if d == 1 { '1' } else if d == 2 { '2' } else if d == 3 { '3' } else if d == 4 { '4' } else if d == 5 {
        '5'
    } else if d == 6 { '6' } else if d == 7 { '7' } else if d == 8 { '8' } else { '9' }
}

/// The decimal digits of `n`, without leading zeros ("0" for zero).
pub open spec fn nat_text(n: nat) -> Seq<char>
    decreases n,
{
    if n < 10 {
        seq![digit_char(n)]
    } else {
        nat_text(n / 10).push(digit_char(n % 10))
    }
}

/// The decimal text of `k`, with a leading `-` when it is negative.
pub open spec fn int_text(k: int) -> Seq<char> {
    if k < 0 {
        seq!['-'] + nat_text((-k) as nat)
    } else {
        nat_text(k as nat)
    }
}

/// The text of a reduced fraction: the numerator alone when the denominator
/// is 1, else `numerator/denominator`.
pub open spec fn rat_text(q: Q) -> Seq<char> {
    if q.d == 1 {
        int_text(q.n)
    } else {
        int_text(q.n) + seq!['/'] + int_text(q.d)
    }
}

/// The decimal text of `n`: `std`'s `Display` for `usize` (decimal digits,
/// no leading zeros). Claimed: exactly `nat_text(n)`.
#[verifier::external_body]
pub(crate) fn usize_text(n: usize) -> (r: String)
    ensures
        r@ == nat_text(n as nat),
{
    format!("{}", n)
}

// ---------------------------------------------------------------------------
// Rationals
// ---------------------------------------------------------------------------
/// An arbitrary-precision rational, always held in reduced form.
pub struct Rat {
    num: Int,
    den: Int,
}

impl View for Rat {
    type V = Q;

    closed spec fn view(&self) -> Q {
        Q { n: self.num@, d: self.den@ }
    }
}

impl Rat {
    /// Every rational is in reduced form.
    #[verifier::type_invariant]
    pub open spec fn reduced(self) -> bool {
        qcanon(self@)
    }

    /// A copy with the same value.
    pub fn duplicate(&self) -> (r: Rat)
        ensures
            r@ == self@,
    {
        proof {
            use_type_invariant(self);
        }
        Rat { num: self.num.duplicate(), den: self.den.duplicate() }
    }

    /// The text of the number: `num`'s `Display` for `BigRational`, which
    /// writes the numerator, and `/` and the denominator unless it is 1, each
    /// in decimal with a `-` for a negative value. Claimed: exactly
    /// `rat_text` of the value.
    #[verifier::external_body]
    pub fn to_text(&self) -> (r: String)
        ensures
            r@ == rat_text(self@),
    {
        let x = BigRational::new_raw(BigInt::from_signed_bytes_le(&self.num.bytes), BigInt::from_signed_bytes_le(&self.den.bytes));
        format!("{}", x)
    }

    /// Wraps `Ratio::new` (reduces; panics on a zero denominator).
    #[verifier::external_body]
    pub fn new(n: &Int, d: &Int) -> (r: Rat)
        requires
            d@ != 0,
        ensures
            r@ == qnorm(n@, d@),
    {
        let x = BigRational::new(BigInt::from_signed_bytes_le(&n.bytes), BigInt::from_signed_bytes_le(&d.bytes));
        Rat { num: Int { bytes: x.numer().to_signed_bytes_le() }, den: Int { bytes: x.denom().to_signed_bytes_le() } }
    }

    /// Wraps `Ratio::from_integer`.
    #[verifier::external_body]
    pub fn from_integer(n: &Int) -> (r: Rat)
        ensures
            r@ == qint(n@),
    {
        let x = BigRational::from_integer(BigInt::from_signed_bytes_le(&n.bytes));
        Rat { num: Int { bytes: x.numer().to_signed_bytes_le() }, den: Int { bytes: x.denom().to_signed_bytes_le() } }
    }

    /// The integer `k` as a rational.
    pub fn from_i64(k: i64) -> (r: Rat)
        ensures
            r@ == qint(k as int),
    {
        Rat::from_integer(&Int::from_i64(k))
    }

    /// The integer `k` as a rational.
    pub fn from_usize(k: usize) -> (r: Rat)
        ensures
            r@ == qint(k as int),
    {
        Rat::from_integer(&Int::from_usize(k))
    }

    /// The numerator.
    pub fn numer(&self) -> (r: Int)
        ensures
            r@ == self@.n,
    {
        self.num.duplicate()
    }

    /// The denominator (always positive).
    pub fn denom(&self) -> (r: Int)
        ensures
            r@ == self@.d,
            r@ > 0,
    {
        proof {
            use_type_invariant(self);
        }
        self.den.duplicate()
    }

    /// Wraps `Ratio + Ratio`.
    #[verifier::external_body]
    pub fn add(&self, other: &Rat) -> (r: Rat)
        ensures
            r@ == qadd(self@, other@),
    {
        let x = BigRational::new_raw(BigInt::from_signed_bytes_le(&self.num.bytes), BigInt::from_signed_bytes_le(&self.den.bytes));
        let y = BigRational::new_raw(BigInt::from_signed_bytes_le(&other.num.bytes), BigInt::from_signed_bytes_le(&other.den.bytes));
        let z = x + y;
        Rat { num: Int { bytes: z.numer().to_signed_bytes_le() }, den: Int { bytes: z.denom().to_signed_bytes_le() } }
    }

    /// Wraps `Ratio - Ratio`.
    #[verifier::external_body]
    pub fn sub(&self, other: &Rat) -> (r: Rat)
        ensures
            r@ == qsub(self@, other@),
    {
        let x = BigRational::new_raw(BigInt::from_signed_bytes_le(&self.num.bytes), BigInt::from_signed_bytes_le(&self.den.bytes));
        let y = BigRational::new_raw(BigInt::from_signed_bytes_le(&other.num.bytes), BigInt::from_signed_bytes_le(&other.den.bytes));
        let z = x - y;
        Rat { num: Int { bytes: z.numer().to_signed_bytes_le() }, den: Int { bytes: z.denom().to_signed_bytes_le() } }
    }

    /// Wraps `Ratio * Ratio`.
    #[verifier::external_body]
    pub fn mul(&self, other: &Rat) -> (r: Rat)
        ensures
            r@ == qmul(self@, other@),
    {
        let x = BigRational::new_raw(BigInt::from_signed_bytes_le(&self.num.bytes), BigInt::from_signed_bytes_le(&self.den.bytes));
        let y = BigRational::new_raw(BigInt::from_signed_bytes_le(&other.num.bytes), BigInt::from_signed_bytes_le(&other.den.bytes));
        let z = x * y;
        Rat { num: Int { bytes: z.numer().to_signed_bytes_le() }, den: Int { bytes: z.denom().to_signed_bytes_le() } }
    }

    /// Wraps `Ratio / Ratio` (panics on a zero divisor).
    #[verifier::external_body]
    pub fn div(&self, other: &Rat) -> (r: Rat)
        requires
            other@.n != 0,
        ensures
            r@ == qdiv(self@, other@),
    {
        let x = BigRational::new_raw(BigInt::from_signed_bytes_le(&self.num.bytes), BigInt::from_signed_bytes_le(&self.den.bytes));
        let y = BigRational::new_raw(BigInt::from_signed_bytes_le(&other.num.bytes), BigInt::from_signed_bytes_le(&other.den.bytes));
        let z = x / y;
        Rat { num: Int { bytes: z.numer().to_signed_bytes_le() }, den: Int { bytes: z.denom().to_signed_bytes_le() } }
    }

    /// Wraps `-Ratio`.
    #[verifier::external_body]
    pub fn neg(&self) -> (r: Rat)
        ensures
            r@ == qneg(self@),
    {
        let x = BigRational::new_raw(BigInt::from_signed_bytes_le(&self.num.bytes), BigInt::from_signed_bytes_le(&self.den.bytes));
        let z = -x;
        Rat { num: Int { bytes: z.numer().to_signed_bytes_le() }, den: Int { bytes: z.denom().to_signed_bytes_le() } }
    }

    /// Wraps `Signed::abs` on `Ratio`.
    #[verifier::external_body]
    pub fn abs(&self) -> (r: Rat)
        ensures
            r@ == qabs(self@),
    {
        let x = BigRational::new_raw(BigInt::from_signed_bytes_le(&self.num.bytes), BigInt::from_signed_bytes_le(&self.den.bytes));
        let z = x.abs();
        Rat { num: Int { bytes: z.numer().to_signed_bytes_le() }, den: Int { bytes: z.denom().to_signed_bytes_le() } }
    }

    /// Wraps `Pow<u32>` on `Ratio`.
    #[verifier::external_body]
    pub fn pow(&self, e: u32) -> (r: Rat)
        ensures
            r@ == qpow(self@, e as nat),
    {
        let x = BigRational::new_raw(BigInt::from_signed_bytes_le(&self.num.bytes), BigInt::from_signed_bytes_le(&self.den.bytes));
        let z = Pow::pow(&x, e);
        Rat { num: Int { bytes: z.numer().to_signed_bytes_le() }, den: Int { bytes: z.denom().to_signed_bytes_le() } }
    }

    /// Wraps `Zero::is_zero` on `Ratio`.
    #[verifier::external_body]
    pub fn is_zero(&self) -> (r: bool)
        ensures
            r == (self@.n == 0),
    {
        BigInt::from_signed_bytes_le(&self.num.bytes).is_zero()
    }

    /// Wraps `Signed::is_positive` on `Ratio`.
    #[verifier::external_body]
    pub fn is_positive(&self) -> (r: bool)
        ensures
            r == (self@.n > 0),
    {
        BigRational::new_raw(BigInt::from_signed_bytes_le(&self.num.bytes), BigInt::from_signed_bytes_le(&self.den.bytes)).is_positive()
    }

    /// Wraps `Signed::is_negative` on `Ratio`.
    #[verifier::external_body]
    pub fn is_negative(&self) -> (r: bool)
        ensures
            r == (self@.n < 0),
    {
        BigRational::new_raw(BigInt::from_signed_bytes_le(&self.num.bytes), BigInt::from_signed_bytes_le(&self.den.bytes)).is_negative()
    }

    /// Wraps `One::is_one` on `Ratio`.
    #[verifier::external_body]
    pub fn is_one(&self) -> (r: bool)
        ensures
            r == (self@ == qint(1)),
    {
        BigRational::new_raw(BigInt::from_signed_bytes_le(&self.num.bytes), BigInt::from_signed_bytes_le(&self.den.bytes)).is_one()
    }

    /// Wraps `Ratio == Ratio`.
    #[verifier::external_body]
    pub fn eq(&self, other: &Rat) -> (r: bool)
        ensures
            r == (self@ == other@),
    {
        let x = BigRational::new_raw(BigInt::from_signed_bytes_le(&self.num.bytes), BigInt::from_signed_bytes_le(&self.den.bytes));
        let y = BigRational::new_raw(BigInt::from_signed_bytes_le(&other.num.bytes), BigInt::from_signed_bytes_le(&other.den.bytes));
        x == y
    }

    /// Wraps `Ratio < Ratio`.
    #[verifier::external_body]
    pub fn lt(&self, other: &Rat) -> (r: bool)
        ensures
            r == qlt(self@, other@),
    {
        let x = BigRational::new_raw(BigInt::from_signed_bytes_le(&self.num.bytes), BigInt::from_signed_bytes_le(&self.den.bytes));
        let y = BigRational::new_raw(BigInt::from_signed_bytes_le(&other.num.bytes), BigInt::from_signed_bytes_le(&other.den.bytes));
        x < y
    }

    /// Wraps `Ratio <= Ratio`.
    #[verifier::external_body]
    pub fn le(&self, other: &Rat) -> (r: bool)
        ensures
            r == qle(self@, other@),
    {
        let x = BigRational::new_raw(BigInt::from_signed_bytes_le(&self.num.bytes), BigInt::from_signed_bytes_le(&self.den.bytes));
        let y = BigRational::new_raw(BigInt::from_signed_bytes_le(&other.num.bytes), BigInt::from_signed_bytes_le(&other.den.bytes));
        x <= y
    }
}

} // verus!
