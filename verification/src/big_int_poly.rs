//! Polynomials in one variable with arbitrary-precision integer coefficients.
use crate::modpoly::{clean_ints, field_values, lemma_clean_ints, PrimeModPoly};
use crate::nonempty::{int_vec1_as_slice, int_vec1_from_vec, int_vec1_values};
use crate::number::{trem, Int};
use crate::polyfactor::int_values;
use vec1::Vec1;
use vstd::prelude::*;

verus! {

/// Coefficient `i` of the coefficient list `s`: zero outside its range.
pub open spec fn coef(s: Seq<int>, i: int) -> int {
    if 0 <= i < s.len() {
        s[i]
    } else {
        0
    }
}

/// Removing trailing zeros keeps every coefficient.
pub proof fn lemma_clean_coef(s: Seq<int>)
    requires
        s.len() >= 1,
    ensures
        forall|k: int| #[trigger] coef(clean_ints(s), k) == coef(s, k),
        clean_ints(s).len() >= 1,
    decreases s.len(),
{
    lemma_clean_ints(s);
    if s.len() > 1 && s.last() == 0 {
        lemma_clean_coef(s.drop_last());
        assert forall|k: int| #[trigger] coef(clean_ints(s), k) == coef(s, k) by {
            assert(coef(clean_ints(s), k) == coef(s.drop_last(), k));
        }
    }
}

/// A polynomial with integer coefficients, lowest degree first.
pub struct BigIntPoly(Vec1<Int>);

impl View for BigIntPoly {
    type V = Seq<int>;

    /// The coefficients, lowest degree first.
    closed spec fn view(&self) -> Seq<int> {
        int_vec1_values(self.0)
    }
}

impl BigIntPoly {
    /// There is at least one coefficient.
    #[verifier::type_invariant]
    pub open spec fn wf(&self) -> bool {
        self@.len() >= 1
    }
}

/// A copy of a list of integers.
fn copy_ints(s: &[Int]) -> (r: Vec<Int>)
    ensures
        int_values(r@) == int_values(s@),
        r@.len() == s@.len(),
{
    let mut v: Vec<Int> = Vec::new();
    let mut i: usize = 0;
    while i < s.len()
        invariant
            i <= s@.len(),
            int_values(v@) == int_values(s@).subrange(0, i as int),
        decreases s@.len() - i,
    {
        let x = s[i].duplicate();
        let ghost prev = v@;
        v.push(x);
        proof {
            assert(int_values(v@) =~= int_values(prev).push(s@[i as int]@));
            assert(int_values(v@) =~= int_values(s@).subrange(0, i + 1));
        }
        i = i + 1;
    }
    assert(int_values(s@).subrange(0, s@.len() as int) =~= int_values(s@));
    v
}

/// Removes trailing zero coefficients, keeping at least one.
fn clean_vec(v: &mut Vec<Int>)
    requires
        old(v)@.len() >= 1,
    ensures
        int_values(final(v)@) == clean_ints(int_values(old(v)@)),
        final(v)@.len() >= 1,
{
    let ghost s0 = int_values(v@);
    while v.len() > 1 && v[v.len() - 1].is_zero()
        invariant
            v@.len() >= 1,
            clean_ints(int_values(v@)) == clean_ints(s0),
        decreases v@.len(),
    {
        let ghost prev = v@;
        v.pop();
        proof {
            assert(v@ =~= prev.drop_last());
            assert(int_values(v@) =~= int_values(prev).drop_last());
        }
    }
    proof {
        lemma_clean_ints(s0);
    }
}

/// The polynomial holding the coefficients `v` as they are.
fn from_ints(v: Vec<Int>) -> (r: BigIntPoly)
    requires
        v@.len() >= 1,
    ensures
        r@ == int_values(v@),
{
    let t = int_vec1_from_vec(v).unwrap();
    BigIntPoly(t)
}

impl BigIntPoly {
    /// The polynomial with the given coefficients, trailing zeros removed.
    pub fn new(coefficients: Vec1<Int>) -> (r: BigIntPoly)
        ensures
            r@ == clean_ints(int_vec1_values(coefficients)),
    {
        let mut v = copy_ints(int_vec1_as_slice(&coefficients));
        clean_vec(&mut v);
        from_ints(v)
    }

    /// The coefficients, lowest degree first.
    pub fn iter(&self) -> (r: &[Int])
        ensures
            int_values(r@) == self@,
            r@.len() >= 1,
    {
        int_vec1_as_slice(&self.0)
    }

    /// The degree: the number of coefficients minus one.
    pub fn degree(&self) -> (r: usize)
        ensures
            r == self@.len() - 1,
    {
        let s = self.iter();
        s.len() - 1
    }

    /// Removes trailing zero coefficients.
    pub fn clean(&mut self)
        ensures
            final(self)@ == clean_ints(old(self)@),
    {
        let mut v = copy_ints(self.iter());
        clean_vec(&mut v);
        *self = from_ints(v);
    }

    /// The polynomial is the single coefficient 0.
    pub fn is_zero(&self) -> (r: bool)
        ensures
            r == (self@.len() == 1 && self@[0] == 0),
    {
        let s = self.iter();
        s.len() == 1 && s[0].is_zero()
    }

    /// The polynomial is the single coefficient 1.
    pub fn is_one(&self) -> (r: bool)
        ensures
            r == (self@.len() == 1 && self@[0] == 1),
    {
        let s = self.iter();
        s.len() == 1 && s[0].is_one()
    }
}

/// The coefficient-wise sum, as long as the longer operand.
pub open spec fn padded_sum(a: Seq<int>, b: Seq<int>) -> Seq<int> {
    Seq::new(if a.len() >= b.len() { a.len() } else { b.len() }, |i: int| coef(a, i) + coef(b, i))
}

/// The coefficient-wise difference, as long as the longer operand.
pub open spec fn padded_difference(a: Seq<int>, b: Seq<int>) -> Seq<int> {
    Seq::new(if a.len() >= b.len() { a.len() } else { b.len() }, |i: int| coef(a, i) - coef(b, i))
}

/// Every coefficient negated.
pub open spec fn negated(a: Seq<int>) -> Seq<int> {
    a.map_values(|c: int| -c)
}

/// The derivative: coefficient `i` times `i`, for `i` from 1; the single
/// coefficient 0 for a constant.
pub open spec fn derivative(s: Seq<int>) -> Seq<int> {
    if s.len() <= 1 {
        seq![0]
    } else {
        Seq::new((s.len() - 1) as nat, |i: int| s[i + 1] * (i + 1))
    }
}

impl BigIntPoly {
    /// The zero polynomial.
    pub fn zero() -> (r: BigIntPoly)
        ensures
            r@ == seq![0int],
    {
        let v = vec![Int::from_i64(0)];
        assert(int_values(v@) =~= seq![0int]);
        from_ints(v)
    }

    /// The constant polynomial 1.
    pub fn one() -> (r: BigIntPoly)
        ensures
            r@ == seq![1int],
    {
        let v = vec![Int::from_i64(1)];
        assert(int_values(v@) =~= seq![1int]);
        from_ints(v)
    }

    /// Every coefficient times `constant`; trailing zeros are kept.
    pub fn mul_constant(&self, constant: &Int) -> (r: BigIntPoly)
        ensures
            r@ == self@.map_values(|c: int| c * constant@),
    {
        let s = self.iter();
        let mut v: Vec<Int> = Vec::new();
        let mut i: usize = 0;
        while i < s.len()
            invariant
                int_values(s@) == self@,
                i <= s@.len(),
                int_values(v@) == self@.map_values(|c: int| c * constant@).subrange(0, i as int),
            decreases s@.len() - i,
        {
            let ghost prev = v@;
            v.push(s[i].mul(constant));
            proof {
                assert(self@[i as int] == s@[i as int]@);
                assert(int_values(v@) =~= int_values(prev).push(self@[i as int] * constant@));
                assert(int_values(v@) =~= self@.map_values(|c: int| c * constant@).subrange(0, i + 1));
            }
            i = i + 1;
        }
        assert(self@.map_values(|c: int| c * constant@).subrange(0, s@.len() as int) =~= self@.map_values(
            |c: int| c * constant@,
        ));
        from_ints(v)
    }

    /// Every coefficient's remainder by `modulus`, with the sign of the
    /// coefficient; trailing zeros are kept.
    pub fn mod_integer(&self, modulus: &Int) -> (r: BigIntPoly)
        requires
            modulus@ != 0,
        ensures
            r@ == self@.map_values(|c: int| trem(c, modulus@)),
    {
        let s = self.iter();
        let mut v: Vec<Int> = Vec::new();
        let mut i: usize = 0;
        while i < s.len()
            invariant
                int_values(s@) == self@,
                modulus@ != 0,
                i <= s@.len(),
                int_values(v@) == self@.map_values(|c: int| trem(c, modulus@)).subrange(0, i as int),
            decreases s@.len() - i,
        {
            let ghost prev = v@;
            v.push(s[i].rem_trunc(modulus));
            proof {
                assert(self@[i as int] == s@[i as int]@);
                assert(int_values(v@) =~= int_values(prev).push(trem(self@[i as int], modulus@)));
                assert(int_values(v@) =~= self@.map_values(|c: int| trem(c, modulus@)).subrange(0, i + 1));
            }
            i = i + 1;
        }
        assert(self@.map_values(|c: int| trem(c, modulus@)).subrange(0, s@.len() as int) =~= self@.map_values(
            |c: int| trem(c, modulus@),
        ));
        from_ints(v)
    }

    /// Every coefficient negated; trailing zeros are kept.
    pub fn neg(self) -> (r: BigIntPoly)
        ensures
            r@ == negated(self@),
    {
        let s = self.iter();
        let mut v: Vec<Int> = Vec::new();
        let mut i: usize = 0;
        while i < s.len()
            invariant
                int_values(s@) == self@,
                i <= s@.len(),
                int_values(v@) == negated(self@).subrange(0, i as int),
            decreases s@.len() - i,
        {
            let ghost prev = v@;
            v.push(s[i].neg());
            proof {
                assert(self@[i as int] == s@[i as int]@);
                assert(int_values(v@) =~= int_values(prev).push(-self@[i as int]));
                assert(int_values(v@) =~= negated(self@).subrange(0, i + 1));
            }
            i = i + 1;
        }
        assert(negated(self@).subrange(0, s@.len() as int) =~= negated(self@));
        from_ints(v)
    }

    /// The sum, trailing zeros removed.
    pub fn add(self, rhs: BigIntPoly) -> (r: BigIntPoly)
        ensures
            r@ == clean_ints(padded_sum(self@, rhs@)),
    {
        let a = self.iter();
        let b = rhs.iter();
        let n = if a.len() >= b.len() { a.len() } else { b.len() };
        let mut v: Vec<Int> = Vec::new();
        let mut i: usize = 0;
        while i < n
            invariant
                int_values(a@) == self@,
                int_values(b@) == rhs@,
                n == (if a@.len() >= b@.len() { a@.len() } else { b@.len() }),
                i <= n,
                int_values(v@) == padded_sum(self@, rhs@).subrange(0, i as int),
            decreases n - i,
        {
            let ghost prev = v@;
            let x = if i < a.len() { a[i].duplicate() } else { Int::from_i64(0) };
            let y = if i < b.len() { b[i].duplicate() } else { Int::from_i64(0) };
            proof {
                if i < a@.len() {
                    assert(self@[i as int] == a@[i as int]@);
                }
                if i < b@.len() {
                    assert(rhs@[i as int] == b@[i as int]@);
                }
                assert(x@ == coef(self@, i as int));
                assert(y@ == coef(rhs@, i as int));
            }
            v.push(x.add(&y));
            proof {
                assert(int_values(v@) =~= int_values(prev).push(coef(self@, i as int) + coef(rhs@, i as int)));
                assert(int_values(v@) =~= padded_sum(self@, rhs@).subrange(0, i + 1));
            }
            i = i + 1;
        }
        assert(padded_sum(self@, rhs@).subrange(0, n as int) =~= padded_sum(self@, rhs@));
        clean_vec(&mut v);
        from_ints(v)
    }

    /// The difference, trailing zeros removed.
    pub fn sub(self, rhs: BigIntPoly) -> (r: BigIntPoly)
        ensures
            r@ == clean_ints(padded_difference(self@, rhs@)),
    {
        let ghost a = self@;
        let ghost b = rhs@;
        let n = rhs.neg();
        let r = self.add(n);
        assert(padded_sum(a, negated(b)) =~= padded_difference(a, b));
        r
    }
}

/// The derivative of a polynomial.
pub fn uni_poly_derivative(poly: &BigIntPoly) -> (r: BigIntPoly)
    ensures
        r@ == derivative(poly@),
{
    let s = poly.iter();
    let mut v: Vec<Int> = Vec::new();
    let mut i: usize = 1;
    while i < s.len()
        invariant
            int_values(s@) == poly@,
            1 <= i <= s@.len(),
            v@.len() == i - 1,
            forall|j: int| 0 <= j < i - 1 ==> #[trigger] v@[j]@ == poly@[j + 1] * (j + 1),
        decreases s@.len() - i,
    {
        assert(poly@[i as int] == s@[i as int]@);
        let k = Int::from_usize(i);
        v.push(s[i].mul(&k));
        i = i + 1;
    }
    if v.len() == 0 {
        let z = vec![Int::from_i64(0)];
        assert(int_values(z@) =~= seq![0int]);
        return from_ints(z);
    }
    assert(int_values(v@) =~= derivative(poly@));
    from_ints(v)
}

/// The sum of `coef(a, i) * coef(b, k - i)` over `i` below `n`.
pub open spec fn conv_sum(a: Seq<int>, b: Seq<int>, k: int, n: nat) -> int
    decreases n,
{
    if n == 0 {
        0
    } else {
        conv_sum(a, b, k, (n - 1) as nat) + coef(a, n - 1) * coef(b, k - (n - 1))
    }
}

/// Coefficient `k` of the product of `a` and `b`.
pub open spec fn product_coef(a: Seq<int>, b: Seq<int>, k: int) -> int {
    conv_sum(a, b, k, a.len())
}

/// The product of `a` and `b`, with `a.len() + b.len() - 1` coefficients.
pub open spec fn poly_product(a: Seq<int>, b: Seq<int>) -> Seq<int> {
    Seq::new((a.len() + b.len() - 1) as nat, |k: int| product_coef(a, b, k))
}

impl BigIntPoly {
    /// The product; trailing zeros are kept.
    pub fn mul(self, rhs: BigIntPoly) -> (r: BigIntPoly)
        requires
            self@.len() + rhs@.len() <= usize::MAX,
        ensures
            r@ == poly_product(self@, rhs@),
    {
        let a = self.iter();
        let b = rhs.iter();
        let ghost sa = self@;
        let ghost sb = rhs@;
        let n = a.len() + b.len() - 1;
        let mut res: Vec<Int> = Vec::new();
        let mut t: usize = 0;
        while t < n
            invariant
                t <= n,
                res@.len() == t,
                forall|k: int| 0 <= k < t ==> #[trigger] res@[k]@ == 0,
            decreases n - t,
        {
            res.push(Int::from_i64(0));
            t = t + 1;
        }
        let mut i: usize = 0;
        while i < a.len()
            invariant
                int_values(a@) == sa,
                int_values(b@) == sb,
                n == sa.len() + sb.len() - 1,
                sb.len() >= 1,
                i <= sa.len(),
                res@.len() == n,
                forall|k: int| 0 <= k < n ==> #[trigger] res@[k]@ == conv_sum(sa, sb, k, i as nat),
            decreases sa.len() - i,
        {
            let mut j: usize = 0;
            while j < b.len()
                invariant
                    int_values(a@) == sa,
                    int_values(b@) == sb,
                    n == sa.len() + sb.len() - 1,
                    i < sa.len(),
                    j <= sb.len(),
                    res@.len() == n,
                    forall|k: int|
                        0 <= k < n ==> #[trigger] res@[k]@ == conv_sum(sa, sb, k, i as nat) + (if i <= k < i + j {
                            sa[i as int] * sb[k - i]
                        } else {
                            0
                        }),
                decreases sb.len() - j,
            {
                assert(sa[i as int] == a@[i as int]@);
                assert(sb[j as int] == b@[j as int]@);
                let p = a[i].mul(&b[j]);
                let x = res[i + j].add(&p);
                res.set(i + j, x);
                j = j + 1;
            }
            proof {
                assert forall|k: int| 0 <= k < n implies #[trigger] res@[k]@ == conv_sum(sa, sb, k, (i + 1) as nat) by {
                    assert(conv_sum(sa, sb, k, (i + 1) as nat) == conv_sum(sa, sb, k, i as nat) + coef(sa, i as int) * coef(
                        sb,
                        k - i,
                    ));
                }
            }
            i = i + 1;
        }
        assert(int_values(res@) =~= poly_product(sa, sb));
        from_ints(res)
    }
}

/// `a` with `c` added to coefficient `s`, lengthened as needed.
pub open spec fn add_monomial(a: Seq<int>, c: int, s: int) -> Seq<int> {
    Seq::new(
        if a.len() > s {
            a.len()
        } else {
            (s + 1) as nat
        },
        |i: int| coef(a, i) + if i == s { c } else { 0 },
    )
}

/// `q * g + r` has the coefficients of `f`.
pub open spec fn divides_with(f: Seq<int>, g: Seq<int>, q: Seq<int>, r: Seq<int>) -> bool {
    forall|k: int| #[trigger] coef(f, k) == product_coef(q, g, k) + coef(r, k)
}

/// `r` is a remainder of `f` by `g`: it has no coefficient from the degree
/// of `g` on, and `f - r` is a multiple of `g`.
pub open spec fn is_remainder(f: Seq<int>, g: Seq<int>, r: Seq<int>) -> bool {
    &&& forall|k: int| k >= g.len() - 1 ==> #[trigger] coef(r, k) == 0
    &&& exists|q: Seq<int>| #[trigger] divides_with(f, g, q, r)
}

/// `q` is a quotient of `f` by `g`: `f - q * g` has no coefficient from the
/// degree of `g` on.
pub open spec fn is_quotient(f: Seq<int>, g: Seq<int>, q: Seq<int>) -> bool {
    forall|k: int| k >= g.len() - 1 ==> #[trigger] coef(f, k) == product_coef(q, g, k)
}

proof fn lemma_conv_stable(a: Seq<int>, b: Seq<int>, k: int, n: nat)
    requires
        n >= a.len(),
    ensures
        conv_sum(a, b, k, n) == conv_sum(a, b, k, a.len()),
    decreases n,
{
    if n > a.len() {
        lemma_conv_stable(a, b, k, (n - 1) as nat);
    }
}

proof fn lemma_conv_monomial(a: Seq<int>, b: Seq<int>, c: int, s: int, k: int, n: nat)
    requires
        s >= 0,
    ensures
        conv_sum(add_monomial(a, c, s), b, k, n) == conv_sum(a, b, k, n) + (if s < n {
            c * coef(b, k - s)
        } else {
            0
        }),
    decreases n,
{
    if n > 0 {
        lemma_conv_monomial(a, b, c, s, k, (n - 1) as nat);
        let m = add_monomial(a, c, s);
        let x = coef(b, k - (n - 1));
        let y = coef(a, n - 1);
        assert(coef(m, n - 1) == y + if n - 1 == s { c } else { 0 });
        assert((y + c) * x == y * x + c * x) by (nonlinear_arith);
    }
}

/// Adding `c` to coefficient `s` of a factor adds `c` times the other factor,
/// shifted by `s`, to the product.
pub proof fn lemma_product_add_monomial(a: Seq<int>, b: Seq<int>, c: int, s: int, k: int)
    requires
        s >= 0,
    ensures
        product_coef(add_monomial(a, c, s), b, k) == product_coef(a, b, k) + c * coef(b, k - s),
{
    let m = add_monomial(a, c, s);
    lemma_conv_monomial(a, b, c, s, k, m.len());
    lemma_conv_stable(a, b, k, m.len());
}

/// Multiplying by a constant multiplies every coefficient.
pub proof fn lemma_product_constant(c: int, b: Seq<int>, k: int)
    ensures
        product_coef(seq![c], b, k) == c * coef(b, k),
{
    assert(conv_sum(seq![c], b, k, 1) == conv_sum(seq![c], b, k, 0) + coef(seq![c], 0) * coef(b, k - 0));
}

proof fn lemma_conv_unit(a: Seq<int>, k: int, n: nat)
    ensures
        conv_sum(a, seq![1int], k, n) == if 0 <= k < n { coef(a, k) } else { 0 },
    decreases n,
{
    if n > 0 {
        lemma_conv_unit(a, k, (n - 1) as nat);
        assert(coef(seq![1int], k - (n - 1)) == if k == n - 1 { 1int } else { 0int });
    }
}

/// The remainder of `f` by `g`, when the leading coefficient of `g` is 1.
#[verifier::spinoff_prover]
fn remainder(f: &[Int], g: &[Int]) -> (r: Option<Vec<Int>>)
    requires
        f@.len() >= 1,
        g@.len() >= 1,
    ensures
        r is Some <==> int_values(g@).last() == 1,
        r matches Some(v) ==> v@.len() >= 1 && is_remainder(int_values(f@), int_values(g@), int_values(v@)),
        r matches Some(v) ==> (clean_ints(int_values(f@)) == int_values(f@) ==> clean_ints(int_values(v@))
            == int_values(v@)),
    decreases f@.len(),
{
    let ghost sf = int_values(f@);
    let ghost sg = int_values(g@);
    let fd = f.len() - 1;
    let gd = g.len() - 1;
    assert(sg.last() == g@[gd as int]@);
    if !g[gd].is_one() {
        return None;
    }
    if gd == 0 {
        let z = vec![Int::from_i64(0)];
        proof {
            assert(sg =~= seq![1int]);
            assert(int_values(z@) =~= seq![0int]);
            assert forall|k: int| #[trigger] coef(sf, k) == product_coef(sf, sg, k) + coef(seq![0int], k) by {
                lemma_conv_unit(sf, k, sf.len());
            }
            assert(divides_with(sf, sg, sf, int_values(z@)));
        }
        return Some(z);
    }
    if fd < gd {
        let v = copy_ints(f);
        proof {
            assert forall|k: int| #[trigger] coef(sf, k) == product_coef(seq![0int], sg, k) + coef(sf, k) by {
                lemma_product_constant(0, sg, k);
            }
            assert(divides_with(sf, sg, seq![0int], int_values(v@)));
            assert forall|k: int| k >= sg.len() - 1 implies #[trigger] coef(int_values(v@), k) == 0 by {
                assert(k >= sf.len());
            }
        }
        return Some(v);
    }
    let c = f[fd].duplicate();
    assert(c@ == sf[fd as int]);
    let s = fd - gd;
    let mut ans = copy_ints(f);
    ans.set(fd, Int::from_i64(0));
    let mut i: usize = 0;
    while i < gd
        invariant
            int_values(g@) == sg,
            fd + 1 == sf.len(),
            gd + 1 == sg.len(),
            s == fd - gd,
            i <= gd,
            ans@.len() == sf.len(),
            forall|k: int|
                0 <= k < sf.len() ==> #[trigger] ans@[k]@ == if k == fd {
                    0
                } else if s <= k < s + i {
                    sf[k] - c@ * sg[k - s]
                } else {
                    sf[k]
                },
        decreases gd - i,
    {
        assert(sg[i as int] == g@[i as int]@);
        let p = c.mul(&g[i]);
        let x = ans[s + i].sub(&p);
        ans.set(s + i, x);
        i = i + 1;
    }
    proof {
        assert forall|k: int| #[trigger] coef(int_values(ans@), k) == coef(sf, k) - c@ * coef(sg, k - s) by {
            if 0 <= k < sf.len() {
                assert(int_values(ans@)[k] == ans@[k]@);
            }
            if k == fd {
                assert(coef(sg, k - s) == 1);
                let x = coef(sg, k - s);
                let cc = c@;
                assert(cc * x == cc) by (nonlinear_arith)
                    requires
                        x == 1,
                ;
                assert(coef(int_values(ans@), k) == 0);
                assert(coef(sf, k) == c@);
            } else if s <= k < fd {
                assert(coef(sg, k - s) == sg[k - s]);
                assert(coef(int_values(ans@), k) == sf[k] - c@ * sg[k - s]);
            } else {
                assert(coef(sg, k - s) == 0);
                let x = coef(sg, k - s);
                let cc = c@;
                assert(cc * x == 0) by (nonlinear_arith)
                    requires
                        x == 0,
                ;
                assert(coef(int_values(ans@), k) == coef(sf, k));
            }
        }
    }
    let ghost before = int_values(ans@);
    clean_vec(&mut ans);
    proof {
        lemma_clean_coef(before);
        lemma_clean_ints(before);
        assert(before.last() == 0);
    }
    let r = remainder(ans.as_slice(), g);
    match r {
        None => None,
        Some(v) => {
            proof {
                let sa = int_values(ans@);
                let sr = int_values(v@);
                let q0 = choose|q: Seq<int>| #[trigger] divides_with(sa, sg, q, sr);
                let q = add_monomial(q0, c@, s as int);
                assert forall|k: int| #[trigger] coef(sf, k) == product_coef(q, sg, k) + coef(sr, k) by {
                    lemma_product_add_monomial(q0, sg, c@, s as int, k);
                    assert(coef(sa, k) == coef(before, k));
                    assert(coef(sa, k) == product_coef(q0, sg, k) + coef(sr, k));
                }
                assert(divides_with(sf, sg, q, sr));
            }
            Some(v)
        },
    }
}

/// The quotient of `f` by `g`, when the leading coefficient of `g` is 1.
#[verifier::spinoff_prover]
fn div(f: &[Int], g: &[Int]) -> (r: Option<Vec<Int>>)
    requires
        f@.len() >= 1,
        g@.len() >= 1,
    ensures
        r is Some <==> int_values(g@).last() == 1,
        r matches Some(v) ==> {
            &&& v@.len() == if f@.len() >= g@.len() { f@.len() - g@.len() + 1 } else { 1 }
            &&& is_quotient(int_values(f@), int_values(g@), int_values(v@))
        },
    decreases f@.len(),
{
    let ghost sf = int_values(f@);
    let ghost sg = int_values(g@);
    let fd = f.len() - 1;
    let gd = g.len() - 1;
    assert(sg.last() == g@[gd as int]@);
    if !g[gd].is_one() {
        return None;
    }
    assert(sf.last() == f@[fd as int]@);
    if fd < gd {
        let z = vec![Int::from_i64(0)];
        proof {
            assert(int_values(z@) =~= seq![0int]);
            assert forall|k: int| k >= sg.len() - 1 implies #[trigger] coef(sf, k) == product_coef(int_values(z@), sg, k) by {
                lemma_product_constant(0, sg, k);
            }
        }
        return Some(z);
    }
    if fd == gd {
        let z = vec![f[fd].duplicate()];
        proof {
            assert(int_values(z@) =~= seq![sf[fd as int]]);
            assert forall|k: int| k >= sg.len() - 1 implies #[trigger] coef(sf, k) == product_coef(int_values(z@), sg, k) by {
                lemma_product_constant(sf[fd as int], sg, k);
                if k == fd {
                    assert(coef(sg, k) == 1);
                } else {
                    assert(coef(sg, k) == 0);
                    assert(coef(sf, k) == 0);
                }
            }
        }
        return Some(z);
    }
    let c = f[fd].duplicate();
    let s = fd - gd;
    let mut h = copy_ints(f);
    h.pop();
    let mut i: usize = 0;
    while i < gd
        invariant
            int_values(g@) == sg,
            fd + 1 == sf.len(),
            gd + 1 == sg.len(),
            s == fd - gd,
            i <= gd,
            h@.len() == fd,
            forall|k: int|
                0 <= k < fd ==> #[trigger] h@[k]@ == if s <= k < s + i {
                    sf[k] - c@ * sg[k - s]
                } else {
                    sf[k]
                },
        decreases gd - i,
    {
        assert(sg[i as int] == g@[i as int]@);
        let p = c.mul(&g[i]);
        let x = h[s + i].sub(&p);
        h.set(s + i, x);
        i = i + 1;
    }
    let ghost sh = int_values(h@);
    proof {
        assert forall|k: int| k < fd implies #[trigger] coef(sh, k) == coef(sf, k) - c@ * coef(sg, k - s) by {
            if 0 <= k {
                assert(sh[k] == h@[k]@);
            }
        }
    }
    let r = div(h.as_slice(), g);
    match r {
        None => None,
        Some(v) => {
            let ghost q0 = int_values(v@);
            let ghost cv = c@;
            let mut v = v;
            v.push(c);
            proof {
                let q = int_values(v@);
                assert(q =~= add_monomial(q0, cv, s as int));
                assert forall|k: int| k >= sg.len() - 1 implies #[trigger] coef(sf, k) == product_coef(q, sg, k) by {
                    lemma_product_add_monomial(q0, sg, cv, s as int, k);
                    assert(product_coef(q, sg, k) == product_coef(q0, sg, k) + cv * coef(sg, k - s));
                    assert(coef(sh, k) == product_coef(q0, sg, k));
                    if k < fd {
                        assert(coef(sh, k) == coef(sf, k) - cv * coef(sg, k - s));
                    } else if k == fd {
                        assert(coef(sh, k) == 0);
                        assert(coef(sg, k - s) == 1);
                        let x = coef(sg, k - s);
                        assert(cv * x == cv) by (nonlinear_arith)
                            requires
                                x == 1,
                        ;
                        assert(coef(sf, k) == cv);
                    } else {
                        assert(coef(sh, k) == 0);
                        assert(coef(sg, k - s) == 0);
                        let x = coef(sg, k - s);
                        assert(cv * x == 0) by (nonlinear_arith)
                            requires
                                x == 0,
                        ;
                        assert(coef(sf, k) == 0);
                    }
                }
            }
            Some(v)
        },
    }
}

/// The remainder of `f` by `g`; `None` unless the leading coefficient of `g`
/// is 1. Trailing zeros of the remainder are kept.
pub fn uni_poly_remainder(f: &BigIntPoly, g: &BigIntPoly) -> (r: Option<BigIntPoly>)
    ensures
        r is Some <==> g@.last() == 1,
        r matches Some(x) ==> is_remainder(f@, g@, x@),
        r matches Some(x) ==> (clean_ints(f@) == f@ ==> clean_ints(x@) == x@),
{
    match remainder(f.iter(), g.iter()) {
        None => None,
        Some(v) => Some(from_ints(v)),
    }
}

/// The quotient of `f` by `g`; `None` unless the leading coefficient of `g`
/// is 1.
pub fn uni_poly_division(f: &BigIntPoly, g: &BigIntPoly) -> (r: Option<BigIntPoly>)
    ensures
        r is Some <==> g@.last() == 1,
        r matches Some(x) ==> {
            &&& is_quotient(f@, g@, x@)
            &&& x@.len() == if f@.len() >= g@.len() { f@.len() - g@.len() + 1 } else { 1 }
        },
{
    match div(f.iter(), g.iter()) {
        None => None,
        Some(v) => Some(from_ints(v)),
    }
}

/// The quotient of `f` by `g`; `None` unless the leading coefficient of `g`
/// is 1 (the same as `uni_poly_division`).
pub fn uni_poly_div(f: &BigIntPoly, g: &BigIntPoly) -> (r: Option<BigIntPoly>)
    ensures
        r is Some <==> g@.last() == 1,
        r matches Some(x) ==> {
            &&& is_quotient(f@, g@, x@)
            &&& x@.len() == if f@.len() >= g@.len() { f@.len() - g@.len() + 1 } else { 1 }
        },
{
    uni_poly_division(f, g)
}

impl BigIntPoly {
    /// The quotient by a divisor whose leading coefficient is 1.
    pub fn div(self, rhs: BigIntPoly) -> (r: BigIntPoly)
        requires
            rhs@.last() == 1,
        ensures
            is_quotient(self@, rhs@, r@),
            r@.len() == if self@.len() >= rhs@.len() { self@.len() - rhs@.len() + 1 } else { 1 },
    {
        uni_poly_div(&self, &rhs).unwrap()
    }

    /// The remainder by a divisor whose leading coefficient is 1.
    pub fn rem(self, rhs: BigIntPoly) -> (r: BigIntPoly)
        requires
            rhs@.last() == 1,
        ensures
            is_remainder(self@, rhs@, r@),
    {
        uni_poly_remainder(&self, &rhs).unwrap()
    }
}

proof fn lemma_conv_difference(a1: Seq<int>, a2: Seq<int>, b: Seq<int>, k: int, n: nat)
    ensures
        conv_sum(padded_difference(a1, a2), b, k, n) == conv_sum(a1, b, k, n) - conv_sum(a2, b, k, n),
    decreases n,
{
    if n > 0 {
        lemma_conv_difference(a1, a2, b, k, (n - 1) as nat);
        let d = padded_difference(a1, a2);
        let x = coef(b, k - (n - 1));
        let y1 = coef(a1, n - 1);
        let y2 = coef(a2, n - 1);
        assert(coef(d, n - 1) == y1 - y2);
        assert((y1 - y2) * x == y1 * x - y2 * x) by (nonlinear_arith);
    }
}

proof fn lemma_conv_top(d: Seq<int>, g: Seq<int>, j: int, n: nat)
    requires
        0 <= j,
        g.len() >= 1,
        g.last() == 1,
        forall|i: int| i > j ==> #[trigger] coef(d, i) == 0,
    ensures
        conv_sum(d, g, j + g.len() - 1, n) == if n > j { coef(d, j) } else { 0 },
    decreases n,
{
    if n > 0 {
        lemma_conv_top(d, g, j, (n - 1) as nat);
        let i = n - 1;
        let x = coef(g, j + g.len() - 1 - i);
        if i < j {
            assert(x == 0);
            assert(coef(d, i) * x == 0);
        } else if i == j {
            assert(x == 1);
            assert(coef(d, i) * x == coef(d, j));
        } else {
            assert(coef(d, i) == 0);
            assert(coef(d, i) * x == 0);
        }
    }
}

proof fn lemma_zero_from_top(d: Seq<int>, g: Seq<int>, j: int)
    requires
        j >= -1,
        g.len() >= 1,
        g.last() == 1,
        forall|i: int| i > j ==> #[trigger] coef(d, i) == 0,
        forall|k: int| k >= g.len() - 1 ==> #[trigger] conv_sum(d, g, k, d.len()) == 0,
    ensures
        forall|i: int| #[trigger] coef(d, i) == 0,
    decreases j + 1,
{
    if j >= 0 {
        lemma_conv_top(d, g, j, d.len());
        assert(conv_sum(d, g, j + g.len() - 1, d.len()) == 0);
        assert(coef(d, j) == 0);
        assert forall|i: int| i > j - 1 implies #[trigger] coef(d, i) == 0 by {
            if i > j {
            }
        }
        lemma_zero_from_top(d, g, j - 1);
    } else {
        assert forall|i: int| #[trigger] coef(d, i) == 0 by {
            if i > j {
            }
        }
    }
}

/// Dividing by a polynomial whose leading coefficient is 1, a quotient and a
/// remainder fit together: `f = q * g + r`.
pub proof fn lemma_division_identity(f: Seq<int>, g: Seq<int>, q: Seq<int>, r: Seq<int>)
    requires
        g.len() >= 1,
        g.last() == 1,
        is_quotient(f, g, q),
        is_remainder(f, g, r),
    ensures
        divides_with(f, g, q, r),
{
    let q2 = choose|q2: Seq<int>| #[trigger] divides_with(f, g, q2, r);
    let d = padded_difference(q2, q);
    assert forall|k: int| #[trigger] conv_sum(d, g, k, d.len()) == product_coef(q2, g, k) - product_coef(q, g, k) by {
        lemma_conv_difference(q2, q, g, k, d.len());
        lemma_conv_stable(q2, g, k, d.len());
        lemma_conv_stable(q, g, k, d.len());
    }
    assert forall|k: int| k >= g.len() - 1 implies #[trigger] conv_sum(d, g, k, d.len()) == 0 by {
        assert(coef(f, k) == product_coef(q2, g, k) + coef(r, k));
        assert(coef(r, k) == 0);
        assert(coef(f, k) == product_coef(q, g, k));
    }
    assert forall|i: int| i > d.len() - 1 implies #[trigger] coef(d, i) == 0 by {
    }
    lemma_zero_from_top(d, g, d.len() - 1);
    assert forall|k: int| #[trigger] coef(f, k) == product_coef(q, g, k) + coef(r, k) by {
        assert(coef(f, k) == product_coef(q2, g, k) + coef(r, k));
        lemma_conv_stable(d, g, k, d.len());
        lemma_zero_conv(d, g, k, d.len());
    }
}

/// `g` divides `f`: some `q` has `q * g == f`.
pub open spec fn poly_divides(g: Seq<int>, f: Seq<int>) -> bool {
    exists|q: Seq<int>| #[trigger] divides_with(f, g, q, seq![0int])
}

/// When a polynomial whose leading coefficient is 1 divides `f`, every
/// remainder of `f` by it is zero.
pub proof fn lemma_remainder_of_multiple(f: Seq<int>, g: Seq<int>, r: Seq<int>)
    requires
        g.len() >= 1,
        g.last() == 1,
        is_remainder(f, g, r),
        poly_divides(g, f),
    ensures
        forall|k: int| #[trigger] coef(r, k) == 0,
{
    let q1 = choose|q: Seq<int>| #[trigger] divides_with(f, g, q, r);
    let q2 = choose|q: Seq<int>| #[trigger] divides_with(f, g, q, seq![0int]);
    let d = padded_difference(q2, q1);
    assert forall|k: int| #[trigger] conv_sum(d, g, k, d.len()) == coef(r, k) by {
        lemma_conv_difference(q2, q1, g, k, d.len());
        lemma_conv_stable(q2, g, k, d.len());
        lemma_conv_stable(q1, g, k, d.len());
        assert(coef(f, k) == product_coef(q1, g, k) + coef(r, k));
        assert(coef(f, k) == product_coef(q2, g, k) + coef(seq![0int], k));
        assert(coef(seq![0int], k) == 0);
    }
    assert forall|k: int| k >= g.len() - 1 implies #[trigger] conv_sum(d, g, k, d.len()) == 0 by {
        assert(conv_sum(d, g, k, d.len()) == coef(r, k));
    }
    assert forall|i: int| i > d.len() - 1 implies #[trigger] coef(d, i) == 0 by {
    }
    lemma_zero_from_top(d, g, d.len() - 1);
    assert forall|k: int| #[trigger] coef(r, k) == 0 by {
        assert(conv_sum(d, g, k, d.len()) == coef(r, k));
        lemma_zero_conv(d, g, k, d.len());
    }
}

proof fn lemma_zero_conv(d: Seq<int>, g: Seq<int>, k: int, n: nat)
    requires
        forall|i: int| #[trigger] coef(d, i) == 0,
    ensures
        conv_sum(d, g, k, n) == 0,
    decreases n,
{
    if n > 0 {
        lemma_zero_conv(d, g, k, (n - 1) as nat);
        assert(coef(d, n - 1) == 0);
        assert(coef(d, n - 1) * coef(g, k - (n - 1)) == 0);
    }
}

proof fn lemma_conv_outside(a: Seq<int>, g: Seq<int>, k: int, n: nat)
    requires
        k < 0 || k >= a.len() + g.len() - 1,
    ensures
        conv_sum(a, g, k, n) == 0,
    decreases n,
{
    if n > 0 {
        lemma_conv_outside(a, g, k, (n - 1) as nat);
        let i = n - 1;
        if i < a.len() {
            assert(coef(g, k - i) == 0);
        } else {
            assert(coef(a, i) == 0);
        }
        assert(coef(a, i) * coef(g, k - i) == 0);
    }
}

/// Every coefficient of the product, in range or not, is the sum that
/// defines it.
pub proof fn lemma_product_coefs(a: Seq<int>, g: Seq<int>)
    requires
        a.len() >= 1,
        g.len() >= 1,
    ensures
        forall|k: int| #[trigger] coef(poly_product(a, g), k) == product_coef(a, g, k),
{
    assert forall|k: int| #[trigger] coef(poly_product(a, g), k) == product_coef(a, g, k) by {
        if k < 0 || k >= a.len() + g.len() - 1 {
            lemma_conv_outside(a, g, k, a.len());
        }
    }
}

/// Dividing a product by a factor whose leading coefficient is 1 gives back
/// the other factor.
pub proof fn lemma_product_quotient(a: Seq<int>, g: Seq<int>, q: Seq<int>)
    requires
        a.len() >= 1,
        g.len() >= 1,
        g.last() == 1,
        is_quotient(poly_product(a, g), g, q),
    ensures
        forall|i: int| #[trigger] coef(q, i) == coef(a, i),
{
    let p = poly_product(a, g);
    let d = padded_difference(q, a);
    lemma_product_coefs(a, g);
    assert forall|k: int| k >= g.len() - 1 implies #[trigger] conv_sum(d, g, k, d.len()) == 0 by {
        lemma_conv_difference(q, a, g, k, d.len());
        lemma_conv_stable(q, g, k, d.len());
        lemma_conv_stable(a, g, k, d.len());
        assert(coef(p, k) == product_coef(q, g, k));
        assert(coef(p, k) == product_coef(a, g, k));
    }
    assert forall|i: int| i > d.len() - 1 implies #[trigger] coef(d, i) == 0 by {
    }
    lemma_zero_from_top(d, g, d.len() - 1);
    assert forall|i: int| #[trigger] coef(q, i) == coef(a, i) by {
        assert(coef(d, i) == 0);
    }
}

impl BigIntPoly {
    /// A copy with the same coefficients.
    pub fn duplicate(&self) -> (r: BigIntPoly)
        ensures
            r@ == self@,
    {
        let v = copy_ints(self.iter());
        from_ints(v)
    }

    /// The two polynomials have the same coefficient lists.
    pub fn equals(&self, other: &BigIntPoly) -> (r: bool)
        ensures
            r == (self@ == other@),
    {
        let a = self.iter();
        let b = other.iter();
        assert(self@.len() == a@.len() && other@.len() == b@.len());
        if a.len() != b.len() {
            return false;
        }
        let mut i: usize = 0;
        while i < a.len()
            invariant
                int_values(a@) == self@,
                int_values(b@) == other@,
                a@.len() == b@.len(),
                i <= a@.len(),
                forall|j: int| 0 <= j < i ==> self@[j] == other@[j],
            decreases a@.len() - i,
        {
            assert(self@[i as int] == a@[i as int]@);
            assert(other@[i as int] == b@[i as int]@);
            if !a[i].eq(&b[i]) {
                return false;
            }
            i = i + 1;
        }
        assert(self@ =~= other@);
        true
    }
}

/// The product of two polynomials whose leading coefficients are 1 has
/// leading coefficient 1.
pub proof fn lemma_product_monic(a: Seq<int>, b: Seq<int>)
    requires
        a.len() >= 1,
        b.len() >= 1,
        a.last() == 1,
        b.last() == 1,
    ensures
        poly_product(a, b).len() == a.len() + b.len() - 1,
        poly_product(a, b).last() == 1,
{
    lemma_conv_top(a, b, a.len() - 1, a.len());
}

proof fn lemma_conv_congruent(a1: Seq<int>, a2: Seq<int>, b: Seq<int>, k: int, n: nat)
    requires
        forall|i: int| #[trigger] coef(a1, i) == coef(a2, i),
    ensures
        conv_sum(a1, b, k, n) == conv_sum(a2, b, k, n),
    decreases n,
{
    if n > 0 {
        lemma_conv_congruent(a1, a2, b, k, (n - 1) as nat);
        assert(coef(a1, n - 1) == coef(a2, n - 1));
    }
}

/// Factors with the same coefficients, up to trailing zeros, give products
/// with the same coefficients.
pub proof fn lemma_product_congruent(a1: Seq<int>, a2: Seq<int>, b: Seq<int>)
    requires
        forall|i: int| #[trigger] coef(a1, i) == coef(a2, i),
    ensures
        forall|k: int| #[trigger] product_coef(a1, b, k) == product_coef(a2, b, k),
{
    assert forall|k: int| #[trigger] product_coef(a1, b, k) == product_coef(a2, b, k) by {
        let n = if a1.len() >= a2.len() { a1.len() } else { a2.len() };
        lemma_conv_congruent(a1, a2, b, k, n);
        lemma_conv_stable(a1, b, k, n);
        lemma_conv_stable(a2, b, k, n);
    }
}

/// The residues of a polynomial modulo a prime, read as integers.
pub fn primepoly_to_bigintpoly(poly: &PrimeModPoly) -> (r: BigIntPoly)
    ensures
        r@ == poly@,
{
    let s = poly.iter();
    let mut v: Vec<Int> = Vec::new();
    let mut i: usize = 0;
    while i < s.len()
        invariant
            field_values(s@) == poly@,
            i <= s@.len(),
            int_values(v@) == poly@.subrange(0, i as int),
        decreases s@.len() - i,
    {
        let ghost prev = v@;
        v.push(Int::from_usize(s[i].get_value()));
        proof {
            assert(poly@[i as int] == s@[i as int].value());
            assert(int_values(v@) =~= int_values(prev).push(poly@[i as int]));
            assert(int_values(v@) =~= poly@.subrange(0, i + 1));
        }
        i = i + 1;
    }
    assert(poly@.subrange(0, s@.len() as int) =~= poly@);
    let t = int_vec1_from_vec(v).unwrap();
    BigIntPoly::new(t)
}

} // verus!
