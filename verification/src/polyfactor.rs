//! Integer coefficient lists for factoring polynomials with rational coefficients.
use crate::big_int_poly::BigIntPoly;
use crate::cad::univariate::{clean_seq, UnivariatePolynomial};
use crate::nonempty::{int_vec1_as_slice, int_vec1_from_vec, int_vec1_values, rat_values, rat_vec1_from_vec};
use crate::number::{ilcm, qint, qnorm, tdiv, Int, Q, Rat};
use vec1::Vec1;
use vstd::arithmetic::power::{lemma_pow0, lemma_pow1, lemma_pow_adds, pow};
use vstd::prelude::*;

verus! {

/// The least common multiple of the first `k` denominators, starting from 1.
pub open spec fn denominators_lcm(cs: Seq<Q>, k: nat) -> int
    decreases k,
{
    if k == 0 {
        1
    } else {
        ilcm(denominators_lcm(cs, (k - 1) as nat), cs[k - 1].d)
    }
}

/// The coefficients scaled by the common denominator `l`: `n * l / d` each.
pub open spec fn scaled_numerators(cs: Seq<Q>, l: int) -> Seq<int> {
    cs.map_values(|c: Q| tdiv(c.n * l, c.d))
}

/// The values of a list of integers.
pub open spec fn int_values(s: Seq<Int>) -> Seq<int> {
    s.map_values(|x: Int| x@)
}

/// Clears denominators: every coefficient times the least common multiple
/// of the denominators.
pub fn rational_to_integer_coeffs(coeffs: &[Rat]) -> (r: Vec<Int>)
    ensures
        int_values(r@) == scaled_numerators(rat_values(coeffs@), denominators_lcm(rat_values(coeffs@), coeffs@.len())),
{
    let ghost cs = rat_values(coeffs@);
    let mut lcm = Int::from_i64(1);
    let mut i: usize = 0;
    while i < coeffs.len()
        invariant
            i <= coeffs@.len(),
            cs == rat_values(coeffs@),
            lcm@ == denominators_lcm(cs, i as nat),
        decreases coeffs@.len() - i,
    {
        let d = coeffs[i].denom();
        assert(cs[i as int] == coeffs@[i as int]@);
        lcm = lcm.lcm(&d);
        i = i + 1;
    }
    let ghost l = lcm@;
    let mut out: Vec<Int> = Vec::new();
    let mut i: usize = 0;
    while i < coeffs.len()
        invariant
            i <= coeffs@.len(),
            cs == rat_values(coeffs@),
            l == lcm@,
            int_values(out@) == scaled_numerators(cs, l).subrange(0, i as int),
        decreases coeffs@.len() - i,
    {
        let c = &coeffs[i];
        assert(cs[i as int] == c@);
        let d = c.denom();
        let x = c.numer().mul(&lcm).div_trunc(&d);
        let ghost prev = out@;
        out.push(x);
        proof {
            assert(int_values(out@) =~= int_values(prev).push(x@));
        }
        i = i + 1;
    }
    proof {
        assert(scaled_numerators(cs, l).subrange(0, coeffs@.len() as int) =~= scaled_numerators(cs, l));
    }
    out
}

/// The monic transform: `a^(n-1) f(x / a)` for the leading coefficient `a`
/// of `f` of degree `n`, with `a` itself; `([0], 1)` for no coefficients.
pub open spec fn monicized(cs: Seq<int>) -> Seq<int> {
    if cs.len() == 0 {
        seq![0]
    } else {
        let n = cs.len() - 1;
        Seq::new(cs.len(), |i: int| if i == n { 1 } else { cs[i] * pow(cs[n], (n - 1 - i) as nat) })
    }
}

/// Makes an integer polynomial monic by substituting `x / a`, `a` being the
/// leading coefficient, which must not be zero.
pub fn monicize(coeffs: &[Int]) -> (r: (Vec<Int>, Int))
    requires
        coeffs@.len() > 0 ==> int_values(coeffs@).last() != 0,
        coeffs@.len() <= u32::MAX,
    ensures
        int_values(r.0@) == monicized(int_values(coeffs@)),
        r.1@ == if coeffs@.len() == 0 { 1 } else { int_values(coeffs@).last() },
{
    let ghost cs = int_values(coeffs@);
    if coeffs.len() == 0 {
        let mut v: Vec<Int> = Vec::new();
        v.push(Int::from_i64(0));
        assert(int_values(v@) =~= seq![0]);
        return (v, Int::from_i64(1));
    }
    let n = coeffs.len() - 1;
    let leading = &coeffs[n];
    assert(cs[n as int] == leading@);
    let mut rest: Vec<Int> = Vec::new();
    let mut i: usize = 0;
    while i < n
        invariant
            n == coeffs@.len() - 1,
            n < u32::MAX,
            cs == int_values(coeffs@),
            leading@ == cs[n as int],
            i <= n,
            int_values(rest@) == monicized(cs).subrange(0, i as int),
        decreases n - i,
    {
        assert(cs[i as int] == coeffs@[i as int]@);
        let e = n - 1 - i;
        let x = coeffs[i].mul(&leading.pow(e as u32));
        let ghost prev = rest@;
        rest.push(x);
        proof {
            assert(int_values(rest@) =~= int_values(prev).push(x@));
        }
        i = i + 1;
    }
    let ghost prev = rest@;
    let one = Int::from_i64(1);
    rest.push(one);
    proof {
        assert(int_values(rest@) =~= int_values(prev).push(1));
        assert forall|k: int| 0 <= k < cs.len() implies #[trigger] int_values(rest@)[k] == monicized(cs)[k] by {
            if k < n {
                assert(int_values(prev)[k] == monicized(cs).subrange(0, n as int)[k]);
            }
        }
        assert(int_values(rest@) =~= monicized(cs));
    }
    (rest, leading.duplicate())
}

/// Undoes the monic transform on the coefficients: coefficient `k` times the
/// leading coefficient `lc` to the power `k`.
pub open spec fn demonicized(cs: Seq<int>, lc: int) -> Seq<int> {
    Seq::new(cs.len(), |k: int| if k == 0 { cs[0] } else { cs[k] * pow(lc, k as nat) })
}

/// Undoes the substitution made by `monicize`, given the leading coefficient
/// that it returned.
pub fn demonicize(poly: &BigIntPoly, leading_coeff: &Int) -> (r: Vec1<Int>)
    requires
        poly@.len() <= u32::MAX,
    ensures
        int_vec1_values(r) == demonicized(poly@, leading_coeff@),
{
    let s = poly.iter();
    let ghost cs = poly@;
    let mut v: Vec<Int> = Vec::new();
    assert(cs[0] == s@[0]@);
    v.push(s[0].duplicate());
    assert(int_values(v@) =~= demonicized(cs, leading_coeff@).subrange(0, 1));
    let mut i: usize = 1;
    while i < s.len()
        invariant
            int_values(s@) == cs,
            cs.len() <= u32::MAX,
            1 <= i <= cs.len(),
            int_values(v@) == demonicized(cs, leading_coeff@).subrange(0, i as int),
        decreases cs.len() - i,
    {
        assert(cs[i as int] == s@[i as int]@);
        let p = leading_coeff.pow(i as u32);
        let x = s[i].mul(&p);
        let ghost prev = v@;
        v.push(x);
        proof {
            assert(int_values(v@) =~= int_values(prev).push(x@));
            assert(int_values(v@) =~= demonicized(cs, leading_coeff@).subrange(0, i + 1));
        }
        i = i + 1;
    }
    assert(demonicized(cs, leading_coeff@).subrange(0, cs.len() as int) =~= demonicized(cs, leading_coeff@));
    int_vec1_from_vec(v).unwrap()
}

/// Every coefficient divided by the leading one, which becomes 1.
pub open spec fn monic_rationals(cs: Seq<int>) -> Seq<Q> {
    Seq::new(cs.len(), |i: int| if i == cs.len() - 1 { qint(1) } else { qnorm(cs[i], cs.last()) })
}

/// The monic polynomial with rational coefficients that has the same roots
/// as an integer polynomial whose leading coefficient is not zero.
pub fn bigintpoly_to_univariate(poly: &Vec1<Int>) -> (r: UnivariatePolynomial)
    requires
        int_vec1_values(*poly).last() != 0,
    ensures
        r@ == monic_rationals(int_vec1_values(*poly)),
{
    ints_to_univariate(int_vec1_as_slice(poly))
}

/// The monic polynomial with rational coefficients that has the same roots
/// as the integer polynomial with the coefficients `s`, lowest degree first,
/// whose last one is not zero.
pub fn ints_to_univariate(s: &[Int]) -> (r: UnivariatePolynomial)
    requires
        s@.len() >= 1,
        int_values(s@).last() != 0,
    ensures
        r@ == monic_rationals(int_values(s@)),
{
    let ghost cs = int_values(s@);
    let n = s.len() - 1;
    let lt = &s[n];
    assert(cs[n as int] == lt@);
    let mut v: Vec<Rat> = Vec::new();
    let mut i: usize = 0;
    while i < n
        invariant
            int_values(s@) == cs,
            n == cs.len() - 1,
            lt@ == cs.last(),
            lt@ != 0,
            i <= n,
            rat_values(v@) == monic_rationals(cs).subrange(0, i as int),
        decreases n - i,
    {
        assert(cs[i as int] == s@[i as int]@);
        let x = Rat::new(&s[i], lt);
        let ghost prev = v@;
        v.push(x);
        proof {
            assert(rat_values(v@) =~= rat_values(prev).push(x@));
            assert(rat_values(v@) =~= monic_rationals(cs).subrange(0, i + 1));
        }
        i = i + 1;
    }
    let ghost prev = v@;
    let one = Rat::from_i64(1);
    v.push(one);
    proof {
        assert(rat_values(v@) =~= rat_values(prev).push(qint(1)));
        assert(rat_values(v@) =~= monic_rationals(cs));
    }
    let coeffs = rat_vec1_from_vec(v).unwrap();
    let r = UnivariatePolynomial::new(coeffs);
    proof {
        let m = monic_rationals(cs);
        assert(m.last().n == 1);
        assert(clean_seq(m) == m);
    }
    r
}

/// The result of `demonicize` as a monic polynomial with rational
/// coefficients.
pub fn demonicize_to_univariate(poly: &BigIntPoly, leading_coeff: &Int) -> (r: UnivariatePolynomial)
    requires
        poly@.len() <= u32::MAX,
        demonicized(poly@, leading_coeff@).last() != 0,
    ensures
        r@ == monic_rationals(demonicized(poly@, leading_coeff@)),
{
    let c = demonicize(poly, leading_coeff);
    bigintpoly_to_univariate(&c)
}

/// Undoing the monic transform of a polynomial of degree `n` with leading
/// coefficient `a` gives the polynomial back, scaled by `a` to the power
/// `n - 1`.
pub proof fn lemma_demonicize_monicized(cs: Seq<int>)
    requires
        cs.len() >= 2,
    ensures
        forall|i: int|
            0 <= i < cs.len() ==> #[trigger] demonicized(monicized(cs), cs.last())[i] == cs[i] * pow(
                cs.last(),
                (cs.len() - 2) as nat,
            ),
{
    let n = cs.len() - 1;
    let a = cs.last();
    let m = monicized(cs);
    assert forall|i: int| 0 <= i < cs.len() implies #[trigger] demonicized(m, a)[i] == cs[i] * pow(a, (n - 1) as nat) by {
        if i == n {
            lemma_pow_adds(a, (n - 1) as nat, 1);
            lemma_pow1(a);
            assert(pow(a, n as nat) == pow(a, (n - 1) as nat) * a);
            assert(demonicized(m, a)[i] == 1 * pow(a, i as nat));
            assert(cs[i] == a);
            assert(a * pow(a, (n - 1) as nat) == pow(a, (n - 1) as nat) * a) by (nonlinear_arith);
        } else if i == 0 {
            lemma_pow0(a);
            assert(demonicized(m, a)[i] == m[0]);
            assert(m[0] == cs[0] * pow(a, (n - 1) as nat));
        } else {
            lemma_pow_adds(a, (n - 1 - i) as nat, i as nat);
            let x = cs[i];
            let p1 = pow(a, (n - 1 - i) as nat);
            let p2 = pow(a, i as nat);
            assert(demonicized(m, a)[i] == (x * p1) * p2);
            assert((x * p1) * p2 == x * (p1 * p2)) by (nonlinear_arith);
        }
    }
}

} // verus!
