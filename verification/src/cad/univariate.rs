//! Polynomials in one variable with rational coefficients.
use crate::nonempty::{rat_values, rat_vec1_as_slice, rat_vec1_from_vec, rat_vec1_values};
use crate::number::{nat_text, qadd, qdiv, qint, qmul, qneg, qsub, rat_text, usize_text, Q, Rat};
use crate::polynomial::{term_view, terms_view, Polynomial};
use vec1::Vec1;
use vstd::prelude::*;
use vstd::string::StringExecFns;

verus! {

/// Drops trailing zero coefficients, keeping at least one coefficient.
pub open spec fn clean_seq(s: Seq<Q>) -> Seq<Q>
    decreases s.len(),
{
    if s.len() > 1 && s.last().n == 0 {
        clean_seq(s.drop_last())
    } else {
        s
    }
}

/// Removing trailing zeros keeps a prefix, shortens a list ending in zero,
/// and leaves no zero leading coefficient beyond a single one.
pub proof fn lemma_clean_seq(s: Seq<Q>)
    ensures
        clean_seq(s).len() <= s.len(),
        s.len() > 0 ==> clean_seq(s).len() > 0,
        s.len() > 1 && s.last().n == 0 ==> clean_seq(s).len() < s.len(),
        clean_seq(s) == s.subrange(0, clean_seq(s).len() as int),
        clean_seq(s).len() == 1 || clean_seq(s).len() == 0 || clean_seq(s).last().n != 0,
    decreases s.len(),
{
    if s.len() > 1 && s.last().n == 0 {
        lemma_clean_seq(s.drop_last());
        assert(clean_seq(s) == s.drop_last().subrange(0, clean_seq(s).len() as int));
        assert(s.drop_last().subrange(0, clean_seq(s).len() as int) =~= s.subrange(0, clean_seq(s).len() as int));
    } else {
        assert(s.subrange(0, s.len() as int) =~= s);
    }
}

/// `s[i]`, or zero past the end.
pub open spec fn coeff_at(s: Seq<Q>, i: int) -> Q {
    if 0 <= i < s.len() {
        s[i]
    } else {
        qint(0)
    }
}

/// Coefficientwise sum, as long as the longer operand, before cleaning.
pub open spec fn seq_add(a: Seq<Q>, b: Seq<Q>) -> Seq<Q> {
    let n = if a.len() >= b.len() { a.len() } else { b.len() };
    Seq::new(n, |i: int| qadd(coeff_at(a, i), coeff_at(b, i)))
}

/// Every coefficient multiplied by `c`.
pub open spec fn seq_scale(s: Seq<Q>, c: Q) -> Seq<Q> {
    s.map_values(|x: Q| qmul(x, c))
}

/// Every coefficient negated.
pub open spec fn seq_neg(s: Seq<Q>) -> Seq<Q> {
    s.map_values(|x: Q| qneg(x))
}

/// Value at `x` by Horner's rule, starting from the highest coefficient.
pub open spec fn horner(s: Seq<Q>, x: Q) -> Q
    decreases s.len(),
{
    if s.len() == 0 {
        qint(0)
    } else {
        qadd(qmul(horner(s.drop_first(), x), x), s[0])
    }
}

/// The formal derivative; the zero polynomial for constants.
pub open spec fn seq_derivative(s: Seq<Q>) -> Seq<Q> {
    if s.len() <= 1 {
        seq![qint(0)]
    } else {
        Seq::new((s.len() - 1) as nat, |i: int| qmul(s[i + 1], qint(i + 1)))
    }
}

/// One step of long division: cancels the leading coefficient of `f` with a
/// multiple of `g` (the leading slot becomes zero).
pub open spec fn rem_step(f: Seq<Q>, g: Seq<Q>) -> Seq<Q> {
    let fd = f.len() - 1;
    let gd = g.len() - 1;
    let lc = qdiv(f.last(), g.last());
    let off = fd - gd;
    Seq::new(
        f.len(),
        |k: int|
            if k == fd {
                qint(0)
            } else if off <= k < off + gd {
                qsub(f[k], qmul(lc, g[k - off]))
            } else {
                f[k]
            },
    )
}

/// The remainder of long division of `f` by `g`; `None` when `g` is zero.
pub open spec fn spec_remainder(f: Seq<Q>, g: Seq<Q>) -> Option<Seq<Q>>
    decreases f.len(),
{
    if g.len() <= 1 {
        if g.len() == 0 || g[0].n == 0 {
            None
        } else {
            Some(seq![qint(0)])
        }
    } else if f.len() < g.len() {
        Some(f)
    } else {
        proof {
            lemma_clean_seq(rem_step(f, g));
        }
        spec_remainder(clean_seq(rem_step(f, g)), g)
    }
}

/// The dividend left after removing the leading quotient term: the leading
/// coefficient is dropped and a multiple of `g` is subtracted below it.
pub open spec fn div_step(f: Seq<Q>, g: Seq<Q>) -> Seq<Q> {
    let fd = f.len() - 1;
    let gd = g.len() - 1;
    let lc = qdiv(f.last(), g.last());
    let off = fd - gd;
    Seq::new(fd as nat, |k: int| if off <= k < off + gd { qsub(f[k], qmul(lc, g[k - off])) } else { f[k] })
}

/// The quotient of long division of `f` by `g` (lowest coefficient first);
/// `None` when the leading coefficient of `g` is zero.
pub open spec fn spec_quotient(f: Seq<Q>, g: Seq<Q>) -> Option<Seq<Q>>
    decreases f.len(),
{
    if g.len() == 0 || f.len() == 0 || g.last().n == 0 {
        None
    } else if f.len() < g.len() {
        Some(seq![qint(0)])
    } else if f.len() == g.len() {
        Some(seq![qdiv(f.last(), g.last())])
    } else {
        match spec_quotient(div_step(f, g), g) {
            Some(q) => Some(q.push(qdiv(f.last(), g.last()))),
            None => None,
        }
    }
}

/// A polynomial in one variable: coefficient `i` belongs to `x^i`.
pub struct UnivariatePolynomial(Vec1<Rat>);

impl View for UnivariatePolynomial {
    type V = Seq<Q>;

    closed spec fn view(&self) -> Seq<Q> {
        rat_vec1_values(self.0)
    }
}

/// Copies a slice of rationals.
fn copy_rats(s: &[Rat]) -> (r: Vec<Rat>)
    ensures
        rat_values(r@) == rat_values(s@),
{
    let mut v: Vec<Rat> = Vec::new();
    let mut i: usize = 0;
    while i < s.len()
        invariant
            i <= s@.len(),
            rat_values(v@) == rat_values(s@).subrange(0, i as int),
        decreases s@.len() - i,
    {
        let x = s[i].duplicate();
        let ghost prev = v@;
        v.push(x);
        proof {
            assert(rat_values(v@) =~= rat_values(prev).push(x@));
        }
        i = i + 1;
    }
    proof {
        assert(rat_values(s@).subrange(0, s@.len() as int) =~= rat_values(s@));
    }
    v
}

/// Removes trailing zeros from `v`, keeping at least one entry.
fn clean_vec(v: &mut Vec<Rat>)
    requires
        old(v)@.len() > 0,
    ensures
        rat_values(final(v)@) == clean_seq(rat_values(old(v)@)),
        final(v)@.len() > 0,
{
    loop
        invariant
            v@.len() > 0,
            clean_seq(rat_values(v@)) == clean_seq(rat_values(old(v)@)),
        decreases v@.len(),
    {
        let n = v.len();
        if n > 1 && v[n - 1].is_zero() {
            let ghost prev = v@;
            v.pop();
            proof {
                assert(rat_values(v@) =~= rat_values(prev).drop_last());
            }
        } else {
            return;
        }
    }
}

impl UnivariatePolynomial {
    /// At least one coefficient.
    #[verifier::type_invariant]
    pub open spec fn nonempty(self) -> bool {
        self@.len() > 0
    }

    /// Wraps a non-empty vector of coefficients as they are.
    fn from_vec(v: Vec<Rat>) -> (r: UnivariatePolynomial)
        requires
            v@.len() > 0,
        ensures
            r@ == rat_values(v@),
    {
        UnivariatePolynomial(rat_vec1_from_vec(v).unwrap())
    }

    /// The coefficients, lowest degree first.
    pub fn iter(&self) -> (r: &[Rat])
        ensures
            rat_values(r@) == self@,
            r@.len() > 0,
    {
        rat_vec1_as_slice(&self.0)
    }

    /// A copy of the coefficients.
    fn to_vec(&self) -> (r: Vec<Rat>)
        ensures
            rat_values(r@) == self@,
            r@.len() > 0,
    {
        let r = copy_rats(self.iter());
        assert(rat_values(r@).len() == r@.len());
        r
    }

    /// A copy of this polynomial.
    pub fn duplicate(&self) -> (r: UnivariatePolynomial)
        ensures
            r@ == self@,
    {
        UnivariatePolynomial::from_vec(self.to_vec())
    }

    /// The polynomial with the given coefficients, trailing zeros removed.
    pub fn new(coefficients: Vec1<Rat>) -> (r: UnivariatePolynomial)
        ensures
            r@ == clean_seq(rat_vec1_values(coefficients)),
    {
        let mut v = copy_rats(rat_vec1_as_slice(&coefficients));
        assert(rat_values(v@).len() == v@.len());
        clean_vec(&mut v);
        UnivariatePolynomial::from_vec(v)
    }

    /// The polynomial with the given coefficients, trailing zeros removed.
    pub fn from_coeffs(coefficients: Vec<Rat>) -> (r: UnivariatePolynomial)
        requires
            coefficients@.len() > 0,
        ensures
            r@ == clean_seq(rat_values(coefficients@)),
    {
        let mut v = coefficients;
        clean_vec(&mut v);
        UnivariatePolynomial::from_vec(v)
    }

    /// Number of coefficients minus one.
    pub fn degree(&self) -> (r: usize)
        ensures
            r == self@.len() - 1,
    {
        proof {
            use_type_invariant(self);
        }
        let s = self.iter();
        s.len() - 1
    }

    /// Removes trailing zero coefficients.
    pub fn clean(&mut self)
        ensures
            final(self)@ == clean_seq(old(self)@),
    {
        let mut v = self.to_vec();
        clean_vec(&mut v);
        *self = UnivariatePolynomial::from_vec(v);
    }

    /// Every coefficient is zero.
    pub fn is_zero(&self) -> (r: bool)
        ensures
            r == (forall|i: int| 0 <= i < self@.len() ==> self@[i].n == 0),
    {
        let s = self.iter();
        let mut i: usize = 0;
        while i < s.len()
            invariant
                rat_values(s@) == self@,
                i <= s@.len(),
                forall|j: int| 0 <= j < i ==> self@[j].n == 0,
            decreases s@.len() - i,
        {
            if !s[i].is_zero() {
                assert(rat_values(s@)[i as int] == s@[i as int]@);
                return false;
            }
            i = i + 1;
        }
        true
    }

    /// Every coefficient multiplied by `constant`.
    pub fn mul_constant(&self, constant: &Rat) -> (r: UnivariatePolynomial)
        ensures
            r@ == seq_scale(self@, constant@),
    {
        let s = self.iter();
        let mut v: Vec<Rat> = Vec::new();
        let mut i: usize = 0;
        while i < s.len()
            invariant
                rat_values(s@) == self@,
                i <= s@.len(),
                rat_values(v@) == seq_scale(self@, constant@).subrange(0, i as int),
            decreases s@.len() - i,
        {
            let x = s[i].mul(constant);
            let ghost prev = v@;
            v.push(x);
            proof {
                assert(rat_values(v@) =~= rat_values(prev).push(x@));
            }
            i = i + 1;
        }
        proof {
            assert(seq_scale(self@, constant@).subrange(0, s@.len() as int) =~= seq_scale(self@, constant@));
        }
        UnivariatePolynomial::from_vec(v)
    }

    /// The polynomial divided by its leading coefficient (unchanged when that is zero).
    pub fn monic(&self) -> (r: UnivariatePolynomial)
        ensures
            self@.last().n == 0 ==> r@ == self@,
            self@.last().n != 0 ==> r@ == seq_scale(self@, qdiv(qint(1), self@.last())),
    {
        proof {
            use_type_invariant(self);
        }
        let last = self.leading_coeff();
        if last.is_zero() {
            self.duplicate()
        } else {
            self.mul_constant(&Rat::from_i64(1).div(&last))
        }
    }

    /// The value at `value`, by Horner's rule.
    pub fn substitute(&self, value: &Rat) -> (r: Rat)
        ensures
            r@ == horner(self@, value@),
    {
        let s = self.iter();
        let n = s.len();
        let mut acc = Rat::from_i64(0);
        let mut i: usize = n;
        while i > 0
            invariant
                rat_values(s@) == self@,
                n == s@.len(),
                i <= n,
                acc@ == horner(self@.subrange(i as int, n as int), value@),
            decreases i,
        {
            i = i - 1;
            proof {
                assert(self@.subrange(i as int, n as int).drop_first() =~= self@.subrange(i + 1, n as int));
            }
            acc = acc.mul(value).add(&s[i]);
        }
        proof {
            assert(self@.subrange(0, n as int) =~= self@);
        }
        acc
    }

    /// The highest coefficient.
    pub fn leading_coeff(&self) -> (r: Rat)
        ensures
            r@ == self@.last(),
    {
        let s = self.iter();
        s[s.len() - 1].duplicate()
    }

    /// The coefficients.
    pub fn get_coeffs(&self) -> (r: &Vec1<Rat>)
        ensures
            rat_vec1_values(*r) == self@,
    {
        &self.0
    }

    /// Coefficientwise sum, with trailing zeros removed.
    pub fn add(&self, rhs: &UnivariatePolynomial) -> (r: UnivariatePolynomial)
        ensures
            r@ == clean_seq(seq_add(self@, rhs@)),
    {
        proof {
            use_type_invariant(self);
            use_type_invariant(rhs);
        }
        let a = self.iter();
        let b = rhs.iter();
        let n = if a.len() >= b.len() { a.len() } else { b.len() };
        let ghost target = seq_add(self@, rhs@);
        let mut v: Vec<Rat> = Vec::new();
        let mut i: usize = 0;
        while i < n
            invariant
                rat_values(a@) == self@,
                rat_values(b@) == rhs@,
                n == target.len(),
                target == seq_add(self@, rhs@),
                i <= n,
                rat_values(v@) == target.subrange(0, i as int),
            decreases n - i,
        {
            let x = if i < a.len() { a[i].duplicate() } else { Rat::from_i64(0) };
            let y = if i < b.len() { b[i].duplicate() } else { Rat::from_i64(0) };
            let z = x.add(&y);
            let ghost prev = v@;
            v.push(z);
            proof {
                assert(rat_values(v@) =~= rat_values(prev).push(z@));
                assert(rat_values(v@) =~= target.subrange(0, i + 1));
            }
            i = i + 1;
        }
        proof {
            assert(target.subrange(0, n as int) =~= target);
        }
        UnivariatePolynomial::from_coeffs(v)
    }

    /// Every coefficient negated.
    pub fn neg(&self) -> (r: UnivariatePolynomial)
        ensures
            r@ == seq_neg(self@),
    {
        let s = self.iter();
        let mut v: Vec<Rat> = Vec::new();
        let mut i: usize = 0;
        while i < s.len()
            invariant
                rat_values(s@) == self@,
                i <= s@.len(),
                rat_values(v@) == seq_neg(self@).subrange(0, i as int),
            decreases s@.len() - i,
        {
            let x = s[i].neg();
            let ghost prev = v@;
            v.push(x);
            proof {
                assert(rat_values(v@) =~= rat_values(prev).push(x@));
            }
            i = i + 1;
        }
        proof {
            assert(seq_neg(self@).subrange(0, s@.len() as int) =~= seq_neg(self@));
        }
        UnivariatePolynomial::from_vec(v)
    }

    /// `self - rhs`, computed as `self + (-rhs)`.
    pub fn sub(&self, rhs: &UnivariatePolynomial) -> (r: UnivariatePolynomial)
        ensures
            r@ == clean_seq(seq_add(self@, seq_neg(rhs@))),
    {
        self.add(&rhs.neg())
    }
}

/// The coefficients of `f` after one step of long division by `g`.
fn rem_step_vec(f: Vec<Rat>, g: &[Rat]) -> (r: Vec<Rat>)
    requires
        g@.len() > 1,
        f@.len() >= g@.len(),
        rat_values(g@).last().n != 0,
    ensures
        rat_values(r@) == rem_step(rat_values(f@), rat_values(g@)),
        r@.len() == f@.len(),
{
    let ghost fs = rat_values(f@);
    let ghost gs = rat_values(g@);
    let fd = f.len() - 1;
    let gd = g.len() - 1;
    let lc = f[fd].div(&g[gd]);
    assert(lc@ == qdiv(fs.last(), gs.last()));
    let off = fd - gd;
    let mut ans = f;
    ans.set(fd, Rat::from_i64(0));
    let mut i: usize = 0;
    while i < gd
        invariant
            fd == fs.len() - 1,
            gd == gs.len() - 1,
            off == fd - gd,
            gs == rat_values(g@),
            lc@ == qdiv(fs.last(), gs.last()),
            i <= gd,
            ans@.len() == fs.len(),
            forall|k: int|
                0 <= k < fs.len() ==> #[trigger] rat_values(ans@)[k] == if k == fd {
                    qint(0)
                } else if off <= k < off + i {
                    qsub(fs[k], qmul(lc@, gs[k - off]))
                } else {
                    fs[k]
                },
        decreases gd - i,
    {
        let k = off + i;
        assert(rat_values(ans@)[k as int] == fs[k as int]);
        let t = lc.mul(&g[i]);
        let x = ans[k].sub(&t);
        let ghost prev = ans@;
        ans.set(k, x);
        proof {
            assert forall|j: int| 0 <= j < fs.len() implies #[trigger] rat_values(ans@)[j] == if j == fd {
                qint(0)
            } else if off <= j < off + i + 1 {
                qsub(fs[j], qmul(lc@, gs[j - off]))
            } else {
                fs[j]
            } by {
                if j != k {
                    assert(rat_values(ans@)[j] == rat_values(prev)[j]);
                }
            }
        }
        i = i + 1;
    }
    proof {
        assert(rat_values(ans@) =~= rem_step(fs, gs));
    }
    ans
}

/// The remainder of dividing the coefficients `f` by `g` (whose highest
/// coefficient is non-zero unless `g` is constant); `None` for a zero divisor.
fn remainder(f: Vec<Rat>, g: &[Rat]) -> (r: Option<Vec<Rat>>)
    requires
        f@.len() > 0,
        g@.len() > 0,
        g@.len() > 1 ==> rat_values(g@).last().n != 0,
    ensures
        r is None <==> spec_remainder(rat_values(f@), rat_values(g@)) is None,
        r matches Some(v) ==> spec_remainder(rat_values(f@), rat_values(g@)) == Some(rat_values(v@)) && v@.len() > 0,
    decreases f@.len(),
{
    let fd = f.len() - 1;
    let gd = g.len() - 1;
    if gd == 0 {
        if g[0].is_zero() {
            assert(rat_values(g@)[0] == g@[0]@);
            None
        } else {
            assert(rat_values(g@)[0] == g@[0]@);
            let mut v: Vec<Rat> = Vec::new();
            v.push(Rat::from_i64(0));
            assert(rat_values(v@) =~= seq![qint(0)]);
            Some(v)
        }
    } else if fd < gd {
        Some(f)
    } else {
        let mut ans = rem_step_vec(f, g);
        proof {
            lemma_clean_seq(rem_step(rat_values(f@), rat_values(g@)));
            assert(rat_values(ans@).len() == ans@.len());
        }
        clean_vec(&mut ans);
        proof {
            assert(rat_values(ans@).len() == ans@.len());
        }
        remainder(ans, g)
    }
}

/// The remainder of dividing `f` by `g`; `None` when `g` is zero. The highest
/// coefficient of `g` must be non-zero unless `g` is a constant.
pub fn uni_poly_remainder(f: &UnivariatePolynomial, g: &UnivariatePolynomial) -> (r: Option<UnivariatePolynomial>)
    requires
        g@.len() > 1 ==> g@.last().n != 0,
    ensures
        r is None <==> spec_remainder(f@, g@) is None,
        r matches Some(p) ==> spec_remainder(f@, g@) == Some(p@),
{
    let fv = f.to_vec();
    let gs = g.iter();
    match remainder(fv, gs) {
        Some(v) => Some(UnivariatePolynomial::from_vec(v)),
        None => None,
    }
}

/// The quotient of dividing the coefficients `f` by `g`; `None` when the
/// highest coefficient of `g` is zero.
fn div(f: Vec<Rat>, g: &[Rat]) -> (r: Option<Vec<Rat>>)
    requires
        f@.len() > 0,
        g@.len() > 0,
    ensures
        r is None <==> spec_quotient(rat_values(f@), rat_values(g@)) is None,
        r matches Some(v) ==> spec_quotient(rat_values(f@), rat_values(g@)) == Some(rat_values(v@)) && v@.len() > 0,
    decreases f@.len(),
{
    let ghost fs = rat_values(f@);
    let ghost gs = rat_values(g@);
    let fd = f.len() - 1;
    let gd = g.len() - 1;
    assert(gs.last() == g@[gd as int]@);
    assert(fs.last() == f@[fd as int]@);
    if g[gd].is_zero() {
        return None;
    }
    if fd < gd {
        let mut v: Vec<Rat> = Vec::new();
        v.push(Rat::from_i64(0));
        assert(rat_values(v@) =~= seq![qint(0)]);
        Some(v)
    } else if fd == gd {
        let mut v: Vec<Rat> = Vec::new();
        v.push(f[fd].div(&g[gd]));
        assert(rat_values(v@) =~= seq![qdiv(fs.last(), gs.last())]);
        Some(v)
    } else {
        let res = f[fd].div(&g[gd]);
        let off = fd - gd;
        let mut h = f;
        h.pop();
        let mut i: usize = 0;
        while i < gd
            invariant
                fd == fs.len() - 1,
                gd == gs.len() - 1,
                gd < fd,
                off == fd - gd,
                gs == rat_values(g@),
                res@ == qdiv(fs.last(), gs.last()),
                i <= gd,
                h@.len() == fd,
                forall|k: int|
                    0 <= k < fd ==> #[trigger] rat_values(h@)[k] == if off <= k < off + i {
                        qsub(fs[k], qmul(res@, gs[k - off]))
                    } else {
                        fs[k]
                    },
            decreases gd - i,
        {
            let k = off + i;
            assert(rat_values(h@)[k as int] == fs[k as int]);
            let t = res.mul(&g[i]);
            let x = h[k].sub(&t);
            let ghost prev = h@;
            h.set(k, x);
            proof {
                assert forall|j: int| 0 <= j < fd implies #[trigger] rat_values(h@)[j] == if off <= j < off + i + 1 {
                    qsub(fs[j], qmul(res@, gs[j - off]))
                } else {
                    fs[j]
                } by {
                    if j != k {
                        assert(rat_values(h@)[j] == rat_values(prev)[j]);
                    }
                }
            }
            i = i + 1;
        }
        proof {
            assert(rat_values(h@) =~= div_step(fs, gs));
        }
        match div(h, g) {
            Some(mut ans) => {
                let ghost prev = ans@;
                ans.push(res);
                proof {
                    assert(rat_values(ans@) =~= rat_values(prev).push(res@));
                }
                Some(ans)
            },
            None => None,
        }
    }
}

/// The quotient of dividing `f` by `g`; `None` when the highest coefficient
/// of `g` is zero.
pub fn uni_poly_div(f: &UnivariatePolynomial, g: &UnivariatePolynomial) -> (r: Option<UnivariatePolynomial>)
    ensures
        r is None <==> spec_quotient(f@, g@) is None,
        r matches Some(p) ==> spec_quotient(f@, g@) == Some(p@),
{
    let fv = f.to_vec();
    let gs = g.iter();
    match div(fv, gs) {
        Some(v) => Some(UnivariatePolynomial::from_vec(v)),
        None => None,
    }
}

/// The formal derivative; the zero polynomial for a constant.
pub fn uni_poly_derivative(poly: &UnivariatePolynomial) -> (r: UnivariatePolynomial)
    ensures
        r@ == seq_derivative(poly@),
{
    let s = poly.iter();
    let n = s.len();
    if n <= 1 {
        let mut v: Vec<Rat> = Vec::new();
        v.push(Rat::from_i64(0));
        assert(rat_values(v@) =~= seq![qint(0)]);
        return UnivariatePolynomial::from_vec(v);
    }
    let ghost target = seq_derivative(poly@);
    let mut v: Vec<Rat> = Vec::new();
    let mut i: usize = 1;
    while i < n
        invariant
            n == s@.len() == poly@.len(),
            rat_values(s@) == poly@,
            n > 1,
            target == seq_derivative(poly@),
            1 <= i <= n,
            rat_values(v@) == target.subrange(0, i - 1),
        decreases n - i,
    {
        let x = s[i].mul(&Rat::from_usize(i));
        let ghost prev = v@;
        v.push(x);
        proof {
            assert(rat_values(v@) =~= rat_values(prev).push(x@));
            assert(rat_values(v@) =~= target.subrange(0, i as int));
        }
        i = i + 1;
    }
    proof {
        assert(target.subrange(0, n - 1) =~= target);
    }
    UnivariatePolynomial::from_vec(v)
}

/// The position of a term of one variable: its exponent, or 0 for a constant.
pub open spec fn uni_index(e: Seq<u32>) -> int {
    if e.len() == 0 {
        0
    } else {
        e[0] as int
    }
}

/// No exponent mentions more than one variable.
pub open spec fn all_univariate(ts: Seq<(Seq<u32>, Q)>) -> bool {
    forall|i: int| 0 <= i < ts.len() ==> (#[trigger] ts[i]).0.len() <= 1
}

/// The largest position of a term, 0 when there are none.
pub open spec fn max_index(ts: Seq<(Seq<u32>, Q)>) -> int
    decreases ts.len(),
{
    if ts.len() == 0 {
        0
    } else {
        let m = max_index(ts.drop_last());
        let k = uni_index(ts.last().0);
        if k > m {
            k
        } else {
            m
        }
    }
}

/// `base` with each term's coefficient written at its position, in order.
pub open spec fn place_terms(base: Seq<Q>, ts: Seq<(Seq<u32>, Q)>) -> Seq<Q>
    decreases ts.len(),
{
    if ts.len() == 0 {
        base
    } else {
        place_terms(base, ts.drop_last()).update(uni_index(ts.last().0), ts.last().1)
    }
}

/// The coefficient list of a polynomial in one variable.
pub open spec fn univariate_coeffs(ts: Seq<(Seq<u32>, Q)>) -> Seq<Q> {
    place_terms(Seq::new((max_index(ts) + 1) as nat, |i: int| qint(0)), ts)
}

proof fn lemma_max_index(ts: Seq<(Seq<u32>, Q)>)
    ensures
        max_index(ts) >= 0,
        forall|i: int| 0 <= i < ts.len() ==> uni_index((#[trigger] ts[i]).0) <= max_index(ts),
        ts.len() > 0 ==> exists|i: int| 0 <= i < ts.len() && uni_index((#[trigger] ts[i]).0) == max_index(ts),
    decreases ts.len(),
{
    if ts.len() > 0 {
        lemma_max_index(ts.drop_last());
        assert forall|i: int| 0 <= i < ts.len() implies uni_index((#[trigger] ts[i]).0) <= max_index(ts) by {
            if i < ts.len() - 1 {
                assert(ts[i] == ts.drop_last()[i]);
            }
        }
        if uni_index(ts.last().0) <= max_index(ts.drop_last()) && ts.len() > 1 {
            let j = choose|j: int| 0 <= j < ts.len() - 1 && uni_index((#[trigger] ts.drop_last()[j]).0) == max_index(ts.drop_last());
            assert(ts[j] == ts.drop_last()[j]);
        }
    }
}

/// Why a polynomial could not be read as one in a single variable.
#[derive(Clone, Copy, Debug, PartialEq, Eq, Structural)]
pub enum ConversionError {
    /// A term mentions more than one variable.
    NotUnivariate,
}

/// The polynomial as one in its only variable; refused when a term mentions
/// more than one variable.
pub fn polynomial_to_univariate(poly: &Polynomial) -> (r: Result<UnivariatePolynomial, ConversionError>)
    requires
        forall|i: int| 0 <= i < poly.term_seq().len() ==> uni_index((#[trigger] poly.term_seq()[i]).0) < usize::MAX,
    ensures
        r is Ok <==> all_univariate(poly.term_seq()),
        r matches Ok(p) ==> p@ == univariate_coeffs(poly.term_seq()),
{
    let terms = poly.raw_iter();
    let ghost ts = poly.term_seq();
    proof {
        lemma_max_index(ts);
    }
    let n = terms.len();
    let mut max_ind: usize = 0;
    let mut i: usize = 0;
    while i < n
        invariant
            n == terms@.len() == ts.len(),
            ts == poly.term_seq(),
            terms_view(terms@) == ts,
            forall|j: int| 0 <= j < ts.len() ==> uni_index((#[trigger] ts[j]).0) < usize::MAX,
            i <= n,
            forall|j: int| 0 <= j < i ==> (#[trigger] ts[j]).0.len() <= 1,
            max_ind == max_index(ts.subrange(0, i as int)),
        decreases n - i,
    {
        let e = terms[i].0.as_slice();
        assert(ts[i as int] == term_view(terms@[i as int]));
        assert(ts.subrange(0, i + 1).drop_last() =~= ts.subrange(0, i as int));
        assert(e@ == ts[i as int].0);
        if e.len() > 1 {
            assert(ts[i as int].0.len() > 1);
            assert(!all_univariate(poly.term_seq()));
            return Err(ConversionError::NotUnivariate);
        }
        let k: usize = if e.len() == 0 { 0 } else { e[0] as usize };
        if k > max_ind {
            max_ind = k;
        }
        i = i + 1;
    }
    assert(ts.subrange(0, n as int) =~= ts);
    let mut v: Vec<Rat> = Vec::new();
    let mut j: usize = 0;
    while j <= max_ind
        invariant
            max_ind == max_index(ts),
            max_ind < usize::MAX,
            j <= max_ind + 1,
            rat_values(v@) == Seq::new(j as nat, |t: int| qint(0)),
        decreases max_ind + 1 - j,
    {
        let ghost prev = v@;
        v.push(Rat::from_i64(0));
        proof {
            assert(rat_values(v@) =~= rat_values(prev).push(qint(0)));
            assert(rat_values(v@) =~= Seq::new((j + 1) as nat, |t: int| qint(0)));
        }
        j = j + 1;
    }
    let ghost base = rat_values(v@);
    let mut i: usize = 0;
    while i < n
        invariant
            n == terms@.len() == ts.len(),
            ts == poly.term_seq(),
            terms_view(terms@) == ts,
            all_univariate(ts),
            max_ind == max_index(ts),
            forall|j: int| 0 <= j < ts.len() ==> uni_index((#[trigger] ts[j]).0) <= max_index(ts),
            i <= n,
            base.len() == max_ind + 1,
            rat_values(v@) == place_terms(base, ts.subrange(0, i as int)),
            v@.len() == base.len(),
        decreases n - i,
    {
        let e = terms[i].0.as_slice();
        assert(ts[i as int] == term_view(terms@[i as int]));
        assert(ts.subrange(0, i + 1).drop_last() =~= ts.subrange(0, i as int));
        let k: usize = if e.len() == 0 { 0 } else { e[0] as usize };
        assert(k == uni_index(ts[i as int].0));
        let c = terms[i].1.duplicate();
        let ghost prev = v@;
        v.set(k, c);
        proof {
            assert(rat_values(v@) =~= rat_values(prev).update(k as int, c@));
        }
        i = i + 1;
    }
    assert(ts.subrange(0, n as int) =~= ts);
    Ok(UnivariatePolynomial::from_vec(v))
}

/// `x^i` as text: nothing for the constant term, `x`, or `x^i`.
pub open spec fn power_text(i: nat) -> Seq<char> {
    if i == 0 {
        Seq::empty()
    } else if i == 1 {
        seq!['x']
    } else {
        seq!['x', '^'] + nat_text(i)
    }
}

/// The text of the coefficient `c` of `x^i` in a polynomial of degree
/// `deg`: nothing when it is zero; a coefficient 1 is left out before a
/// power of `x`; a term below the leading one gets ` + ` or ` - ` before it
/// and a space after it, the leading one neither (nor its sign).
pub open spec fn uni_term_text(c: Q, i: nat, deg: nat) -> Seq<char> {
    if c.n == 0 {
        Seq::empty()
    } else {
        let positive = c.n > 0;
        let ct = if c == qint(1) && i != 0 {
            Seq::empty()
        } else if positive {
            rat_text(c)
        } else {
            rat_text(qneg(c))
        };
        if i == deg {
            ct + power_text(i)
        } else if positive {
            seq![' ', '+', ' '] + ct + power_text(i) + seq![' ']
        } else {
            seq![' ', '-', ' '] + ct + power_text(i) + seq![' ']
        }
    }
}

/// The text of the coefficients from the leading one down to position `k`.
pub open spec fn uni_text_from(cs: Seq<Q>, k: nat) -> Seq<char>
    decreases cs.len() - k,
{
    if k >= cs.len() {
        Seq::empty()
    } else {
        uni_text_from(cs, k + 1) + uni_term_text(cs[k as int], k, (cs.len() - 1) as nat)
    }
}

/// `x^i` as text.
fn power_string(i: usize) -> (r: String)
    ensures
        r@ == power_text(i as nat),
{
    proof {
        reveal_strlit("x");
        reveal_strlit("x^");
    }
    let mut exp = String::new();
    if i == 1 {
        exp.append("x");
    } else if i > 1 {
        exp.append("x^");
        exp.append(usize_text(i).as_str());
    }
    exp
}

/// The text of the coefficient `c` of `x^i` (`uni_term_text`).
fn term_string(c: &Rat, i: usize, degree: usize) -> (r: String)
    ensures
        r@ == uni_term_text(c@, i as nat, degree as nat),
{
    proof {
        reveal_strlit(" + ");
        reveal_strlit(" - ");
        reveal_strlit(" ");
    }
    let mut s = String::new();
    if c.is_zero() {
        return s;
    }
    let exp = power_string(i);
    let positive = c.is_positive();
    let ct = if c.is_one() && i != 0 {
        String::new()
    } else if positive {
        c.to_text()
    } else {
        c.neg().to_text()
    };
    if i == degree {
        s.append(ct.as_str());
        s.append(exp.as_str());
    } else if positive {
        s.append(" + ");
        s.append(ct.as_str());
        s.append(exp.as_str());
        s.append(" ");
    } else {
        s.append(" - ");
        s.append(ct.as_str());
        s.append(exp.as_str());
        s.append(" ");
    }
    assert(s@ =~= uni_term_text(c@, i as nat, degree as nat));
    s
}

impl UnivariatePolynomial {
    /// The polynomial as text, leading term first, such as `x^2 - 2 `.
    pub fn to_text(&self) -> (r: String)
        ensures
            r@ == uni_text_from(self@, 0),
    {
        let cs = self.iter();
        let degree = self.degree();
        let mut s = String::new();
        let mut k: usize = cs.len();
        while k > 0
            invariant
                rat_values(cs@) == self@,
                degree == cs@.len() - 1,
                k <= cs@.len(),
                s@ == uni_text_from(self@, k as nat),
            decreases k,
        {
            let i = k - 1;
            assert(self@[i as int] == cs@[i as int]@);
            let t = term_string(&cs[i], i, degree);
            s.append(t.as_str());
            k = i;
        }
        s
    }
}

} // verus!
