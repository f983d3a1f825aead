//! Multivariate polynomials with rational coefficients.
//!
//! A monomial is written by its exponent vector (`x^2 * y^3` is `[2, 3]`);
//! a polynomial maps exponent vectors to non-zero coefficients.
use crate::number::{
    lemma_qmul_minus_one, lemma_qmul_nonzero, lemma_qnorm_zero, nat_text, qadd, qcanon, qint, qmul, qneg, rat_text, usize_text, Q, Rat,
};
use vstd::prelude::*;
use vstd::string::StringExecFns;

verus! {

/// Sum of the entries of `s`.
pub open spec fn seq_sum(s: Seq<u32>) -> int
    decreases s.len(),
{
    if s.len() == 0 {
        0
    } else {
        seq_sum(s.drop_last()) + s.last()
    }
}

/// `a` comes before `b` in the monomial order: shorter vectors first, then
/// lexicographically.
pub open spec fn exp_lt(a: Seq<u32>, b: Seq<u32>) -> bool {
    a.len() < b.len() || (a.len() == b.len() && lex_lt(a, b))
}

/// Lexicographic order on vectors of equal length.
pub open spec fn lex_lt(a: Seq<u32>, b: Seq<u32>) -> bool {
    exists|k: int|
        0 <= k < a.len() && a[k] < b[k] && (forall|j: int| 0 <= j < k ==> a[j] == b[j])
}

/// Entrywise sum of two vectors of equal length.
pub open spec fn exp_add(a: Seq<u32>, b: Seq<u32>) -> Seq<u32> {
    Seq::new(a.len(), |i: int| (a[i] + b[i]) as u32)
}

/// Every entry of `a` is at least the matching entry of `b`.
pub open spec fn exp_ge(a: Seq<u32>, b: Seq<u32>) -> bool {
    forall|i: int| 0 <= i < a.len() ==> a[i] >= b[i]
}

/// Entrywise difference, valid when `exp_ge(a, b)`.
pub open spec fn exp_diff(a: Seq<u32>, b: Seq<u32>) -> Seq<u32> {
    Seq::new(a.len(), |i: int| (a[i] - b[i]) as u32)
}

/// Entrywise difference cut off at zero.
pub open spec fn exp_sat_diff(a: Seq<u32>, b: Seq<u32>) -> Seq<u32> {
    Seq::new(a.len(), |i: int| if a[i] >= b[i] { (a[i] - b[i]) as u32 } else { 0u32 })
}

/// Entrywise maximum.
pub open spec fn exp_max(a: Seq<u32>, b: Seq<u32>) -> Seq<u32> {
    Seq::new(a.len(), |i: int| if a[i] >= b[i] { a[i] } else { b[i] })
}

/// The exponents of the variables in one monomial.
pub struct Exponent(Vec<u32>);

impl View for Exponent {
    type V = Seq<u32>;

    closed spec fn view(&self) -> Seq<u32> {
        self.0@
    }
}

/// No monomial comes before itself in the term order.
pub proof fn lemma_exp_lt_irreflexive(a: Seq<u32>)
    ensures
        !exp_lt(a, a),
{
}

/// Of two different monomials, one comes before the other in the term order.
pub proof fn lemma_exp_lt_trichotomy(a: Seq<u32>, b: Seq<u32>)
    ensures
        a == b || exp_lt(a, b) || exp_lt(b, a),
{
    if a.len() == b.len() && a != b {
        assert(exists|k: int| 0 <= k < a.len() && a[k] != b[k]) by {
            if forall|k: int| 0 <= k < a.len() ==> a[k] == b[k] {
                assert(a =~= b);
            }
        }
        let k0 = choose|k: int| 0 <= k < a.len() && a[k] != b[k];
        lemma_first_difference(a, b, k0);
    }
}

proof fn lemma_first_difference(a: Seq<u32>, b: Seq<u32>, k0: int)
    requires
        a.len() == b.len(),
        0 <= k0 < a.len(),
        a[k0] != b[k0],
    ensures
        lex_lt(a, b) || lex_lt(b, a),
    decreases k0,
{
    if forall|j: int| 0 <= j < k0 ==> a[j] == b[j] {
        if a[k0] < b[k0] {
            assert(lex_lt(a, b));
        } else {
            assert(lex_lt(b, a));
        }
    } else {
        let j0 = choose|j: int| 0 <= j < k0 && a[j] != b[j];
        lemma_first_difference(a, b, j0);
    }
}

/// The term order is transitive.
pub proof fn lemma_exp_lt_transitive(a: Seq<u32>, b: Seq<u32>, c: Seq<u32>)
    requires
        exp_lt(a, b),
        exp_lt(b, c),
    ensures
        exp_lt(a, c),
{
    if a.len() == b.len() && b.len() == c.len() {
        let k1 = choose|k: int| 0 <= k < a.len() && a[k] < b[k] && (forall|j: int| 0 <= j < k ==> a[j] == b[j]);
        let k2 = choose|k: int| 0 <= k < b.len() && b[k] < c[k] && (forall|j: int| 0 <= j < k ==> b[j] == c[j]);
        let k = if k1 < k2 { k1 } else { k2 };
        assert(a[k] < c[k] && (forall|j: int| 0 <= j < k ==> a[j] == c[j]));
    }
}

/// Of two monomials, at most one comes before the other.
pub proof fn lemma_exp_lt_asymmetric(a: Seq<u32>, b: Seq<u32>)
    requires
        exp_lt(a, b),
    ensures
        !exp_lt(b, a),
{
    if exp_lt(b, a) {
        lemma_exp_lt_transitive(a, b, a);
    }
}

impl Exponent {
    pub fn new(exponents: Vec<u32>) -> (r: Exponent)
        ensures
            r@ == exponents@,
    {
        Exponent(exponents)
    }

    /// A copy of this exponent vector.
    pub fn duplicate(&self) -> (r: Exponent)
        ensures
            r@ == self@,
    {
        let mut v: Vec<u32> = Vec::new();
        let mut i: usize = 0;
        while i < self.0.len()
            invariant
                i <= self.0@.len(),
                v@ == self.0@.subrange(0, i as int),
            decreases self.0@.len() - i,
        {
            v.push(self.0[i]);
            i = i + 1;
        }
        assert(v@ == self.0@);
        Exponent(v)
    }

    /// The exponent vector as a slice.
    pub fn as_slice(&self) -> (r: &[u32])
        ensures
            r@ == self@,
    {
        self.0.as_slice()
    }

    /// `self - other`, or `None` when some entry would become negative.
    pub fn sub(&self, other: &Exponent) -> (r: Option<Exponent>)
        requires
            self@.len() == other@.len(),
        ensures
            r is None <==> !exp_ge(self@, other@),
            r matches Some(e) ==> e@ == exp_diff(self@, other@),
    {
        let n = self.0.len();
        let mut i: usize = 0;
        while i < n
            invariant
                n == self@.len() == other@.len(),
                i <= n,
                forall|j: int| 0 <= j < i ==> self@[j] >= other@[j],
            decreases n - i,
        {
            if self.0[i] < other.0[i] {
                return None;
            }
            i = i + 1;
        }
        let mut v: Vec<u32> = Vec::new();
        let mut i: usize = 0;
        while i < n
            invariant
                n == self@.len() == other@.len(),
                i <= n,
                exp_ge(self@, other@),
                v@ == exp_diff(self@, other@).subrange(0, i as int),
            decreases n - i,
        {
            v.push(self.0[i] - other.0[i]);
            i = i + 1;
        }
        assert(v@ == exp_diff(self@, other@));
        Some(Exponent(v))
    }

    /// `self - other` with every negative entry replaced by zero.
    pub fn saturated_sub(&self, other: &Exponent) -> (r: Exponent)
        requires
            self@.len() == other@.len(),
        ensures
            r@ == exp_sat_diff(self@, other@),
    {
        let n = self.0.len();
        let mut v: Vec<u32> = Vec::new();
        let mut i: usize = 0;
        while i < n
            invariant
                n == self@.len() == other@.len(),
                i <= n,
                v@ == exp_sat_diff(self@, other@).subrange(0, i as int),
            decreases n - i,
        {
            let a = self.0[i];
            let b = other.0[i];
            v.push(if a >= b { a - b } else { 0 });
            i = i + 1;
        }
        assert(v@ == exp_sat_diff(self@, other@));
        Exponent(v)
    }

    /// Entrywise maximum: the exponent of the least common multiple of two monomials.
    pub fn lcm(&self, other: &Exponent) -> (r: Exponent)
        requires
            self@.len() == other@.len(),
        ensures
            r@ == exp_max(self@, other@),
    {
        let n = self.0.len();
        let mut v: Vec<u32> = Vec::new();
        let mut i: usize = 0;
        while i < n
            invariant
                n == self@.len() == other@.len(),
                i <= n,
                v@ == exp_max(self@, other@).subrange(0, i as int),
            decreases n - i,
        {
            let a = self.0[i];
            let b = other.0[i];
            v.push(if a >= b { a } else { b });
            i = i + 1;
        }
        assert(v@ == exp_max(self@, other@));
        Exponent(v)
    }

    /// Entrywise sum of two exponent vectors of equal length.
    pub fn add(&self, other: &Exponent) -> (r: Exponent)
        requires
            self@.len() == other@.len(),
            forall|i: int| 0 <= i < self@.len() ==> self@[i] + other@[i] <= u32::MAX,
        ensures
            r@ == exp_add(self@, other@),
    {
        let n = self.0.len();
        let mut v: Vec<u32> = Vec::new();
        let mut i: usize = 0;
        while i < n
            invariant
                n == self@.len() == other@.len(),
                i <= n,
                forall|i: int| 0 <= i < self@.len() ==> self@[i] + other@[i] <= u32::MAX,
                v@ == exp_add(self@, other@).subrange(0, i as int),
            decreases n - i,
        {
            v.push(self.0[i] + other.0[i]);
            i = i + 1;
        }
        assert(v@ == exp_add(self@, other@));
        Exponent(v)
    }

    /// Total degree of the monomial.
    pub fn sum_degree(&self) -> (r: u32)
        requires
            forall|k: int| 0 <= k <= self@.len() ==> seq_sum(#[trigger] self@.subrange(0, k)) <= u32::MAX,
        ensures
            r == seq_sum(self@),
    {
        let n = self.0.len();
        let mut s: u32 = 0;
        let mut i: usize = 0;
        while i < n
            invariant
                n == self@.len(),
                i <= n,
                forall|k: int| 0 <= k <= self@.len() ==> seq_sum(#[trigger] self@.subrange(0, k)) <= u32::MAX,
                s == seq_sum(self@.subrange(0, i as int)),
            decreases n - i,
        {
            assert(self@.subrange(0, i + 1).drop_last() == self@.subrange(0, i as int));
            assert(seq_sum(self@.subrange(0, i + 1)) <= u32::MAX);
            s = s + self.0[i];
            i = i + 1;
        }
        assert(self@.subrange(0, n as int) == self@);
        s
    }

    /// Number of variables.
    pub fn len(&self) -> (r: usize)
        ensures
            r == self@.len(),
    {
        self.0.len()
    }

    /// The exponent of the last variable and the vector without it.
    pub fn split_last(&self) -> (r: Option<(u32, Exponent)>)
        ensures
            r is None <==> self@.len() == 0,
            r matches Some(p) ==> p.0 == self@.last() && p.1@ == self@.drop_last(),
    {
        let mut c = self.duplicate();
        match c.0.pop() {
            None => None,
            Some(last) => Some((last, Exponent(c.0))),
        }
    }

    /// The exponent of the first variable and the vector without it.
    pub fn split_first(&self) -> (r: Option<(u32, Exponent)>)
        ensures
            r is None <==> self@.len() == 0,
            r matches Some(p) ==> p.0 == self@[0] && p.1@ == self@.skip(1),
    {
        let n = self.0.len();
        if n == 0 {
            return None;
        }
        let mut v: Vec<u32> = Vec::new();
        let mut i: usize = 1;
        while i < n
            invariant
                n == self@.len(),
                1 <= i <= n,
                v@ == self@.subrange(1, i as int),
            decreases n - i,
        {
            v.push(self.0[i]);
            i = i + 1;
        }
        assert(v@ == self@.skip(1));
        Some((self.0[0], Exponent(v)))
    }

    /// Appends the exponent of one more variable.
    pub fn push(&mut self, exp: u32)
        ensures
            final(self)@ == old(self)@.push(exp),
    {
        self.0.push(exp);
    }

    /// `self` equals `other`.
    pub fn equals(&self, other: &Exponent) -> (r: bool)
        ensures
            r == (self@ == other@),
    {
        if self.0.len() != other.0.len() {
            return false;
        }
        let n = self.0.len();
        let mut i: usize = 0;
        while i < n
            invariant
                n == self@.len() == other@.len(),
                i <= n,
                forall|j: int| 0 <= j < i ==> self@[j] == other@[j],
            decreases n - i,
        {
            if self.0[i] != other.0[i] {
                return false;
            }
            i = i + 1;
        }
        assert(self@ =~= other@);
        true
    }

    /// `self` comes strictly before `other` in the monomial order.
    pub fn less_than(&self, other: &Exponent) -> (r: bool)
        ensures
            r == exp_lt(self@, other@),
    {
        if self.0.len() != other.0.len() {
            return self.0.len() < other.0.len();
        }
        let n = self.0.len();
        let mut i: usize = 0;
        while i < n
            invariant
                n == self@.len() == other@.len(),
                i <= n,
                forall|j: int| 0 <= j < i ==> self@[j] == other@[j],
            decreases n - i,
        {
            if self.0[i] < other.0[i] {
                assert(lex_lt(self@, other@));
                return true;
            }
            if self.0[i] > other.0[i] {
                assert(!lex_lt(self@, other@)) by {
                    if lex_lt(self@, other@) {
                        let k = choose|k: int|
                            0 <= k < self@.len() && self@[k] < other@[k] && (forall|j: int| 0 <= j < k ==> self@[j] == other@[j]);
                        assert(k != i as int);
                    }
                }
                return false;
            }
            i = i + 1;
        }
        assert(self@ =~= other@);
        false
    }
}

/// The exponent vector of `n` zero entries.
pub open spec fn zero_exp(n: nat) -> Seq<u32> {
    Seq::new(n, |j: int| 0u32)
}

/// The exponent vector of the `i`-th of `n` variables.
pub open spec fn unit_exp(i: int, n: nat) -> Seq<u32> {
    Seq::new(n, |j: int| if j == i { 1u32 } else { 0u32 })
}

/// `n` zero entries.
pub fn zeros(n: usize) -> (r: Vec<u32>)
    ensures
        r@ == zero_exp(n as nat),
{
    let mut v: Vec<u32> = Vec::new();
    let mut k: usize = 0;
    while k < n
        invariant
            k <= n,
            v@ == zero_exp(k as nat),
        decreases n - k,
    {
        v.push(0);
        k = k + 1;
        assert(v@ =~= zero_exp(k as nat));
    }
    v
}

// ---------------------------------------------------------------------------
// Polynomials
// ---------------------------------------------------------------------------
/// A list of (exponent, coefficient) pairs read as a map; a later pair wins.
pub open spec fn seq_to_map(s: Seq<(Seq<u32>, Q)>) -> Map<Seq<u32>, Q>
    decreases s.len(),
{
    if s.len() == 0 {
        Map::empty()
    } else {
        seq_to_map(s.drop_last()).insert(s.last().0, s.last().1)
    }
}

/// No exponent occurs twice.
pub open spec fn distinct_keys(s: Seq<(Seq<u32>, Q)>) -> bool {
    forall|i: int, j: int| 0 <= i < j < s.len() ==> s[i].0 != s[j].0
}

/// Every coefficient is non-zero and in reduced form.
pub open spec fn nonzero_values(s: Seq<(Seq<u32>, Q)>) -> bool {
    forall|i: int| 0 <= i < s.len() ==> (#[trigger] s[i]).1.n != 0 && qcanon(s[i].1)
}

/// Adds `c * x^k` to the polynomial `m`, dropping the term if it cancels.
pub open spec fn map_add_term(m: Map<Seq<u32>, Q>, k: Seq<u32>, c: Q) -> Map<Seq<u32>, Q> {
    let s = if m.contains_key(k) { qadd(m[k], c) } else { c };
    if s.n == 0 {
        m.remove(k)
    } else {
        m.insert(k, s)
    }
}

/// Adds the terms of `s` one after another.
pub open spec fn map_add_terms(m: Map<Seq<u32>, Q>, s: Seq<(Seq<u32>, Q)>) -> Map<Seq<u32>, Q>
    decreases s.len(),
{
    if s.len() == 0 {
        m
    } else {
        map_add_term(map_add_terms(m, s.drop_last()), s.last().0, s.last().1)
    }
}

/// Each term of `s` multiplied by `c * x^e`.
pub open spec fn terms_mul_term(s: Seq<(Seq<u32>, Q)>, e: Seq<u32>, c: Q) -> Seq<(Seq<u32>, Q)> {
    s.map_values(|t: (Seq<u32>, Q)| (exp_add(t.0, e), qmul(t.1, c)))
}

/// The product of two term lists, accumulated term by term of `a` and then of `b`.
pub open spec fn map_mul(a: Seq<(Seq<u32>, Q)>, b: Seq<(Seq<u32>, Q)>) -> Map<Seq<u32>, Q>
    decreases a.len(),
{
    if a.len() == 0 {
        Map::empty()
    } else {
        map_add_terms(map_mul(a.drop_last(), b), terms_mul_term(b, a.last().0, a.last().1))
    }
}

/// All exponents of `s` have `n` entries.
pub open spec fn all_len(s: Seq<(Seq<u32>, Q)>, n: nat) -> bool {
    forall|i: int| 0 <= i < s.len() ==> (#[trigger] s[i].0).len() == n
}

/// Every exponent of `a` has as many entries as every exponent of `b`.
pub open spec fn same_len(a: Seq<(Seq<u32>, Q)>, b: Seq<(Seq<u32>, Q)>) -> bool {
    forall|i: int, j: int| 0 <= i < a.len() && 0 <= j < b.len() ==> #[trigger] a[i].0.len() == #[trigger] b[j].0.len()
}

/// The entrywise sum of any exponent of `s` with `e` stays within `u32`.
pub open spec fn fits_with(s: Seq<(Seq<u32>, Q)>, e: Seq<u32>) -> bool {
    forall|i: int, j: int| 0 <= i < s.len() && 0 <= j < e.len() ==> s[i].0[j] + e[j] <= u32::MAX
}

/// Facts about `seq_to_map` when no key repeats.
pub proof fn lemma_seq_to_map(s: Seq<(Seq<u32>, Q)>)
    requires
        distinct_keys(s),
    ensures
        forall|i: int| 0 <= i < s.len() ==> #[trigger] seq_to_map(s).contains_key(s[i].0) && seq_to_map(s)[s[i].0] == s[i].1,
        forall|k: Seq<u32>| #[trigger] seq_to_map(s).contains_key(k) ==> exists|i: int| 0 <= i < s.len() && s[i].0 == k,
        seq_to_map(s).dom().finite(),
        seq_to_map(s).dom().len() == s.len(),
    decreases s.len(),
{
    if s.len() > 0 {
        let t = s.drop_last();
        lemma_seq_to_map(t);
        assert forall|i: int| 0 <= i < s.len() implies #[trigger] seq_to_map(s).contains_key(s[i].0) && seq_to_map(s)[s[i].0] == s[i].1 by {
            if i < s.len() - 1 {
                assert(t[i] == s[i]);
            }
        }
        assert forall|k: Seq<u32>| #[trigger] seq_to_map(s).contains_key(k) implies exists|i: int| 0 <= i < s.len() && s[i].0 == k by {
            if k != s.last().0 {
                assert(seq_to_map(t).contains_key(k));
                let i = choose|i: int| 0 <= i < t.len() && t[i].0 == k;
                assert(s[i] == t[i]);
            }
        }
        assert(!seq_to_map(t).contains_key(s.last().0)) by {
            if seq_to_map(t).contains_key(s.last().0) {
                let i = choose|i: int| 0 <= i < t.len() && t[i].0 == s.last().0;
                assert(s[i].0 == s[s.len() - 1].0);
            }
        }
    }
}

/// Exponents of `a` and `b` can be added pairwise without overflow.
pub open spec fn pair_fits(a: Seq<(Seq<u32>, Q)>, b: Seq<(Seq<u32>, Q)>) -> bool {
    forall|i: int, j: int, k: int|
        0 <= i < a.len() && 0 <= j < b.len() && 0 <= k < a[i].0.len() ==> a[i].0[k] + b[j].0[k] <= u32::MAX
}

/// Each coefficient of `s` negated.
pub open spec fn terms_neg(s: Seq<(Seq<u32>, Q)>) -> Seq<(Seq<u32>, Q)> {
    s.map_values(|t: (Seq<u32>, Q)| (t.0, qneg(t.1)))
}

/// Each coefficient of `s` multiplied by `c`.
pub open spec fn terms_scale(s: Seq<(Seq<u32>, Q)>, c: Q) -> Seq<(Seq<u32>, Q)> {
    s.map_values(|t: (Seq<u32>, Q)| (t.0, qmul(t.1, c)))
}

proof fn lemma_exp_add_injective(a: Seq<u32>, b: Seq<u32>, e: Seq<u32>)
    requires
        a.len() == e.len(),
        b.len() == e.len(),
        forall|k: int| 0 <= k < e.len() ==> a[k] + e[k] <= u32::MAX,
        forall|k: int| 0 <= k < e.len() ==> b[k] + e[k] <= u32::MAX,
        exp_add(a, e) == exp_add(b, e),
    ensures
        a == b,
{
    assert forall|k: int| 0 <= k < e.len() implies a[k] == b[k] by {
        assert(exp_add(a, e)[k] == exp_add(b, e)[k]);
        assert(exp_add(a, e)[k] == a[k] + e[k]);
        assert(exp_add(b, e)[k] == b[k] + e[k]);
    }
    assert(a =~= b);
}

proof fn lemma_terms_mul_term_wf(s: Seq<(Seq<u32>, Q)>, e: Seq<u32>, c: Q)
    requires
        distinct_keys(s),
        nonzero_values(s),
        all_len(s, e.len()),
        fits_with(s, e),
    ensures
        distinct_keys(terms_mul_term(s, e, c)),
        all_len(terms_mul_term(s, e, c), e.len()),
{
    let t = terms_mul_term(s, e, c);
    assert forall|i: int, j: int| 0 <= i < j < t.len() implies t[i].0 != t[j].0 by {
        if t[i].0 == t[j].0 {
            assert(s[i].0.len() == e.len() && s[j].0.len() == e.len());
            lemma_exp_add_injective(s[i].0, s[j].0, e);
        }
    }
}

proof fn lemma_terms_scale_wf(s: Seq<(Seq<u32>, Q)>, c: Q)
    requires
        distinct_keys(s),
    ensures
        distinct_keys(terms_scale(s, c)),
        seq_to_map(terms_scale(s, c)).dom() == seq_to_map(s).dom(),
{
    let t = terms_scale(s, c);
    lemma_seq_to_map(s);
    lemma_seq_to_map(t);
    assert forall|k: Seq<u32>| seq_to_map(t).dom().contains(k) <==> seq_to_map(s).dom().contains(k) by {
        if seq_to_map(t).contains_key(k) {
            let i = choose|i: int| 0 <= i < t.len() && t[i].0 == k;
            assert(seq_to_map(s).contains_key(s[i].0));
        }
        if seq_to_map(s).contains_key(k) {
            let i = choose|i: int| 0 <= i < s.len() && s[i].0 == k;
            assert(seq_to_map(t).contains_key(t[i].0));
        }
    }
    assert(seq_to_map(terms_scale(s, c)).dom() =~= seq_to_map(s).dom());
}

/// The value of one stored term.
pub open spec fn term_view(t: (Exponent, Rat)) -> (Seq<u32>, Q) {
    (t.0@, t.1@)
}

/// The values of stored terms.
pub open spec fn terms_view(v: Seq<(Exponent, Rat)>) -> Seq<(Seq<u32>, Q)> {
    v.map_values(|t: (Exponent, Rat)| term_view(t))
}

/// A polynomial in several variables with rational coefficients.
pub struct Polynomial {
    terms: Vec<(Exponent, Rat)>,
}

impl Polynomial {
    /// The stored terms as (exponent, coefficient) values.
    pub closed spec fn term_seq(&self) -> Seq<(Seq<u32>, Q)> {
        terms_view(self.terms@)
    }

    /// No exponent is stored twice and no coefficient is zero.
    #[verifier::type_invariant]
    pub open spec fn well_formed(self) -> bool {
        distinct_keys(self.term_seq()) && nonzero_values(self.term_seq())
    }
}

impl View for Polynomial {
    type V = Map<Seq<u32>, Q>;

    open spec fn view(&self) -> Map<Seq<u32>, Q> {
        seq_to_map(self.term_seq())
    }
}

impl Polynomial {
    /// The zero polynomial.
    pub fn zero() -> (r: Polynomial)
        ensures
            r@ == Map::<Seq<u32>, Q>::empty(),
            r.term_seq().len() == 0,
    {
        let r = Polynomial { terms: Vec::new() };
        assert(r.term_seq() =~= Seq::<(Seq<u32>, Q)>::empty());
        r
    }

    /// The polynomial has no terms.
    pub fn is_zero(&self) -> (r: bool)
        ensures
            r == (self@ == Map::<Seq<u32>, Q>::empty()),
            r == (self.term_seq().len() == 0),
    {
        proof {
            use_type_invariant(self);
            lemma_seq_to_map(self.term_seq());
        }
        if self.terms.len() == 0 {
            true
        } else {
            assert(self@.contains_key(self.term_seq()[0].0));
            false
        }
    }

    /// The stored terms.
    pub fn raw_iter(&self) -> (r: &Vec<(Exponent, Rat)>)
        ensures
            terms_view(r@) == self.term_seq(),
            distinct_keys(self.term_seq()),
            nonzero_values(self.term_seq()),
    {
        proof {
            use_type_invariant(self);
        }
        &self.terms
    }

    /// A copy of this polynomial.
    pub fn duplicate(&self) -> (r: Polynomial)
        ensures
            r.term_seq() == self.term_seq(),
            r@ == self@,
    {
        proof {
            use_type_invariant(self);
        }
        let mut v: Vec<(Exponent, Rat)> = Vec::new();
        let mut i: usize = 0;
        while i < self.terms.len()
            invariant
                i <= self.terms@.len(),
                terms_view(v@) == self.term_seq().subrange(0, i as int),
            decreases self.terms@.len() - i,
        {
            let e = self.terms[i].0.duplicate();
            let c = self.terms[i].1.duplicate();
            let ghost prev = v@;
            v.push((e, c));
            proof {
                assert(terms_view(prev).len() == prev.len());
                assert(self.term_seq()[i as int] == (e@, c@));
                assert forall|j: int| 0 <= j < i + 1 implies #[trigger] terms_view(v@)[j]
                    == self.term_seq().subrange(0, i + 1)[j] by {
                    if j < i {
                        assert(v@[j] == prev[j]);
                        assert(terms_view(prev)[j] == self.term_seq().subrange(0, i as int)[j]);
                    }
                }
                assert(terms_view(v@) =~= self.term_seq().subrange(0, i + 1));
            }
            i = i + 1;
        }
        proof {
            assert(self.term_seq().subrange(0, self.terms@.len() as int) =~= self.term_seq());
        }
        Polynomial { terms: v }
    }

    /// Adds `coefficient * x^exponent`; a term whose coefficient becomes zero is removed.
    pub fn add_term(&mut self, exponent: Exponent, coefficient: Rat)
        ensures
            final(self)@ == map_add_term(old(self)@, exponent@, coefficient@),
    {
        proof {
            use_type_invariant(&*self);
            use_type_invariant(&coefficient);
        }
        let mut terms: Vec<(Exponent, Rat)> = Vec::new();
        std::mem::swap(&mut terms, &mut self.terms);
        let ghost s = terms_view(terms@);
        let ghost m = seq_to_map(s);
        proof {
            lemma_seq_to_map(s);
        }
        let n = terms.len();
        let mut i: usize = 0;
        while i < n
            invariant
                n == terms@.len(),
                s == terms_view(terms@),
                i <= n,
                forall|j: int| 0 <= j < i ==> s[j].0 != exponent@,
            ensures
                i <= n,
                forall|j: int| 0 <= j < i ==> s[j].0 != exponent@,
                i < n ==> s[i as int].0 == exponent@,
            decreases n - i,
        {
            if terms[i].0.equals(&exponent) {
                break;
            }
            i = i + 1;
        }
        proof {
            lemma_seq_to_map(s);
        }
        if i < n {
            assert(s[i as int].0 == exponent@);
            assert(seq_to_map(s).contains_key(s[i as int].0));
            assert(m.contains_key(exponent@) && m[exponent@] == s[i as int].1);
            let sum = terms[i].1.add(&coefficient);
            if sum.is_zero() {
                terms.remove(i);
                let ghost s2 = terms_view(terms@);
                proof {
                    assert(s2 =~= s.remove(i as int));
                    assert(distinct_keys(s2));
                    assert(nonzero_values(s2));
                    lemma_seq_to_map(s2);
                    assert(seq_to_map(s2) =~= m.remove(exponent@)) by {
                        assert forall|k: Seq<u32>| #[trigger] seq_to_map(s2).contains_key(k) implies m.remove(exponent@).contains_key(k)
                            && seq_to_map(s2)[k] == m.remove(exponent@)[k] by {
                            let j = choose|j: int| 0 <= j < s2.len() && s2[j].0 == k;
                            assert(seq_to_map(s2).contains_key(s2[j].0));
                            if j < i {
                                assert(s2[j] == s[j]);
                                assert(seq_to_map(s).contains_key(s[j].0));
                            } else {
                                assert(s2[j] == s[j + 1]);
                                assert(seq_to_map(s).contains_key(s[j + 1].0));
                            }
                        }
                        assert forall|k: Seq<u32>| #[trigger] m.remove(exponent@).contains_key(k) implies seq_to_map(s2).contains_key(k) by {
                            let j = choose|j: int| 0 <= j < s.len() && s[j].0 == k;
                            if j < i {
                                assert(s2[j] == s[j]);
                            } else {
                                assert(j != i);
                                assert(s2[j - 1] == s[j]);
                            }
                        }
                    }
                }
            } else {
                proof {
                    use_type_invariant(&sum);
                }
                terms.set(i, (exponent, sum));
                let ghost s2 = terms_view(terms@);
                proof {
                    assert(s2 =~= s.update(i as int, (exponent@, sum@)));
                    assert(distinct_keys(s2));
                    assert(nonzero_values(s2));
                    lemma_seq_to_map(s2);
                    assert(seq_to_map(s2) =~= m.insert(exponent@, sum@)) by {
                        assert forall|k: Seq<u32>| #[trigger] seq_to_map(s2).contains_key(k) implies m.insert(exponent@, sum@).contains_key(k)
                            && seq_to_map(s2)[k] == m.insert(exponent@, sum@)[k] by {
                            let j = choose|j: int| 0 <= j < s2.len() && s2[j].0 == k;
                            assert(seq_to_map(s2).contains_key(s2[j].0));
                            if j != i {
                                assert(s2[j] == s[j]);
                                assert(seq_to_map(s).contains_key(s[j].0));
                            }
                        }
                        assert forall|k: Seq<u32>| #[trigger] m.insert(exponent@, sum@).contains_key(k) implies seq_to_map(s2).contains_key(k) by {
                            if k != exponent@ {
                                let j = choose|j: int| 0 <= j < s.len() && s[j].0 == k;
                                assert(s2[j] == s[j]);
                            } else {
                                assert(s2[i as int].0 == k);
                            }
                        }
                    }
                }
            }
        } else {
            assert(!m.contains_key(exponent@)) by {
                if m.contains_key(exponent@) {
                    let j = choose|j: int| 0 <= j < s.len() && s[j].0 == exponent@;
                }
            }
            if !coefficient.is_zero() {
                terms.push((exponent, coefficient));
                let ghost s2 = terms_view(terms@);
                proof {
                    assert(s2 =~= s.push((exponent@, coefficient@)));
                    assert(s2.drop_last() =~= s);
                    assert(distinct_keys(s2));
                    assert(nonzero_values(s2));
                }
            }
        }
        self.terms = terms;
    }

    /// Multiplies every term by `coefficient * x^exponent`.
    pub fn mul_term(&self, exponent: Exponent, coefficient: Rat) -> (r: Polynomial)
        requires
            all_len(self.term_seq(), exponent@.len()),
            fits_with(self.term_seq(), exponent@),
        ensures
            coefficient@.n == 0 ==> r@ == Map::<Seq<u32>, Q>::empty() && r.term_seq().len() == 0,
            coefficient@.n != 0 ==> r.term_seq() == terms_mul_term(self.term_seq(), exponent@, coefficient@),
            all_len(r.term_seq(), exponent@.len()),
    {
        proof {
            use_type_invariant(self);
            use_type_invariant(&coefficient);
        }
        if coefficient.is_zero() {
            return Polynomial::zero();
        }
        let ghost ts = self.term_seq();
        let ghost target = terms_mul_term(ts, exponent@, coefficient@);
        proof {
            lemma_terms_mul_term_wf(ts, exponent@, coefficient@);
        }
        let n = self.terms.len();
        let mut v: Vec<(Exponent, Rat)> = Vec::new();
        let mut i: usize = 0;
        while i < n
            invariant
                n == self.terms@.len() == ts.len() == target.len(),
                ts == self.term_seq(),
                target == terms_mul_term(ts, exponent@, coefficient@),
                all_len(ts, exponent@.len()),
                fits_with(ts, exponent@),
                i <= n,
                terms_view(v@) == target.subrange(0, i as int),
                nonzero_values(ts),
                coefficient@.n != 0,
                qcanon(coefficient@),
                nonzero_values(terms_view(v@)),
            decreases n - i,
        {
            assert(self.terms@[i as int].0@ == ts[i as int].0);
            let e = self.terms[i].0.add(&exponent);
            let c = self.terms[i].1.mul(&coefficient);
            let ghost prev = v@;
            proof {
                use_type_invariant(&c);
                assert(ts[i as int].1.n != 0);
                lemma_qmul_nonzero(ts[i as int].1, coefficient@);
            }
            v.push((e, c));
            proof {
                assert(terms_view(v@) =~= terms_view(prev).push((e@, c@)));
                assert(terms_view(prev).len() == prev.len());
                assert forall|j: int| 0 <= j < i + 1 implies #[trigger] terms_view(v@)[j] == target.subrange(0, i + 1)[j] by {
                    if j < i {
                        assert(v@[j] == prev[j]);
                        assert(terms_view(prev)[j] == target.subrange(0, i as int)[j]);
                    }
                }
                assert(terms_view(v@) =~= target.subrange(0, i + 1));
            }
            i = i + 1;
        }
        proof {
            assert(target.subrange(0, n as int) =~= target);
        }
        Polynomial { terms: v }
    }

    /// Multiplies every coefficient by `coefficient`.
    pub fn mul_rational(&self, coefficient: Rat) -> (r: Polynomial)
        ensures
            coefficient@.n == 0 ==> r@ == Map::<Seq<u32>, Q>::empty() && r.term_seq().len() == 0,
            coefficient@.n != 0 ==> r.term_seq() == terms_scale(self.term_seq(), coefficient@),
            r@.dom().subset_of(self@.dom()),
    {
        proof {
            use_type_invariant(self);
            use_type_invariant(&coefficient);
            lemma_seq_to_map(self.term_seq());
        }
        if coefficient.is_zero() {
            let z = Polynomial::zero();
            assert(z@.dom() =~= Set::<Seq<u32>>::empty());
            return z;
        }
        let ghost ts = self.term_seq();
        let ghost target = terms_scale(ts, coefficient@);
        proof {
            lemma_terms_scale_wf(ts, coefficient@);
        }
        let n = self.terms.len();
        let mut v: Vec<(Exponent, Rat)> = Vec::new();
        let mut i: usize = 0;
        while i < n
            invariant
                n == self.terms@.len() == ts.len() == target.len(),
                ts == self.term_seq(),
                target == terms_scale(ts, coefficient@),
                i <= n,
                terms_view(v@) == target.subrange(0, i as int),
                nonzero_values(ts),
                coefficient@.n != 0,
                qcanon(coefficient@),
                nonzero_values(terms_view(v@)),
            decreases n - i,
        {
            assert(self.terms@[i as int].0@ == ts[i as int].0);
            let e = self.terms[i].0.duplicate();
            let c = self.terms[i].1.mul(&coefficient);
            let ghost prev = v@;
            proof {
                use_type_invariant(&c);
                assert(ts[i as int].1.n != 0);
                lemma_qmul_nonzero(ts[i as int].1, coefficient@);
            }
            v.push((e, c));
            proof {
                assert(terms_view(v@) =~= terms_view(prev).push((e@, c@)));
                assert(terms_view(prev).len() == prev.len());
                assert forall|j: int| 0 <= j < i + 1 implies #[trigger] terms_view(v@)[j] == target.subrange(0, i + 1)[j] by {
                    if j < i {
                        assert(v@[j] == prev[j]);
                        assert(terms_view(prev)[j] == target.subrange(0, i as int)[j]);
                    }
                }
                assert(terms_view(v@) =~= target.subrange(0, i + 1));
            }
            i = i + 1;
        }
        proof {
            assert(target.subrange(0, n as int) =~= target);
        }
        Polynomial { terms: v }
    }

    /// The leading term: the one whose exponent is greatest in the monomial order.
    pub fn get_lt(&self) -> (r: Option<(&Exponent, &Rat)>)
        ensures
            r is None <==> self@ == Map::<Seq<u32>, Q>::empty(),
            r matches Some(t) ==> self@.contains_key(t.0@) && self@[t.0@] == t.1@ && forall|k: Seq<u32>|
                #[trigger] self@.contains_key(k) && k != t.0@ ==> exp_lt(k, t.0@),
    {
        proof {
            use_type_invariant(self);
        }
        let ghost ts = self.term_seq();
        proof {
            lemma_seq_to_map(ts);
        }
        let n = self.terms.len();
        if n == 0 {
            assert(self@ =~= Map::<Seq<u32>, Q>::empty());
            return None;
        }
        let mut best: usize = 0;
        let mut i: usize = 1;
        while i < n
            invariant
                n == ts.len(),
                ts == self.term_seq(),
                distinct_keys(ts),
                1 <= i <= n,
                best < i,
                forall|j: int| 0 <= j < i && j != best ==> exp_lt(ts[j].0, ts[best as int].0),
            decreases n - i,
        {
            if self.terms[best].0.less_than(&self.terms[i].0) {
                proof {
                    assert forall|j: int| 0 <= j < i + 1 && j != i implies exp_lt(ts[j].0, ts[i as int].0) by {
                        if j != best {
                            lemma_exp_lt_transitive(ts[j].0, ts[best as int].0, ts[i as int].0);
                        }
                    }
                }
                best = i;
            } else {
                proof {
                    assert(ts[i as int].0 != ts[best as int].0);
                    lemma_exp_lt_trichotomy(ts[i as int].0, ts[best as int].0);
                }
            }
            i = i + 1;
        }
        let t = &self.terms[best];
        proof {
            assert(seq_to_map(ts).contains_key(ts[best as int].0));
            assert forall|k: Seq<u32>| #[trigger] self@.contains_key(k) && k != t.0@ implies exp_lt(k, t.0@) by {
                let j = choose|j: int| 0 <= j < ts.len() && ts[j].0 == k;
            }
        }
        Some((&t.0, &t.1))
    }

    /// Adds every term of `other` to `self`.
    pub fn add_assign(&mut self, other: Polynomial)
        ensures
            final(self)@ == map_add_terms(old(self)@, other.term_seq()),
    {
        proof {
            use_type_invariant(&other);
        }
        let ghost ts = other.term_seq();
        let n = other.terms.len();
        let mut i: usize = 0;
        while i < n
            invariant
                n == other.terms@.len() == ts.len(),
                ts == other.term_seq(),
                i <= n,
                self@ == map_add_terms(old(self)@, ts.subrange(0, i as int)),
            decreases n - i,
        {
            let e = other.terms[i].0.duplicate();
            let c = other.terms[i].1.duplicate();
            proof {
                assert(ts.subrange(0, i + 1).drop_last() =~= ts.subrange(0, i as int));
                assert(ts[i as int] == (e@, c@));
            }
            self.add_term(e, c);
            i = i + 1;
        }
        proof {
            assert(ts.subrange(0, n as int) =~= ts);
        }
    }

    /// The sum of two polynomials: the terms of `other` added one by one to `self`.
    pub fn add(&self, other: &Polynomial) -> (r: Polynomial)
        ensures
            r@ == map_add_terms(self@, other.term_seq()),
    {
        let mut r = self.duplicate();
        r.add_assign(other.duplicate());
        r
    }

    /// The polynomial with every coefficient negated.
    pub fn neg(&self) -> (r: Polynomial)
        ensures
            r.term_seq() == terms_neg(self.term_seq()),
            r@.dom() == self@.dom(),
    {
        proof {
            use_type_invariant(self);
            lemma_seq_to_map(self.term_seq());
        }
        let r = self.mul_rational(Rat::from_i64(-1));
        proof {
            let ts = self.term_seq();
            lemma_terms_scale_wf(ts, qint(-1));
            assert forall|i: int| 0 <= i < ts.len() implies qmul(ts[i].1, qint(-1)) == qneg(ts[i].1) by {
                assert(qcanon(ts[i].1));
                lemma_qmul_minus_one(ts[i].1);
            }
            assert(r.term_seq() =~= terms_neg(ts));
        }
        r
    }

    /// `self - other`: the negated terms of `other` added to `self`.
    pub fn sub(&self, other: &Polynomial) -> (r: Polynomial)
        ensures
            r@ == map_add_terms(self@, terms_neg(other.term_seq())),
    {
        self.add(&other.neg())
    }

    /// The product of two polynomials whose exponents all have the same number of entries.
    pub fn mul(&self, other: &Polynomial) -> (r: Polynomial)
        requires
            same_len(self.term_seq(), other.term_seq()),
            pair_fits(other.term_seq(), self.term_seq()),
        ensures
            r@ == map_mul(self.term_seq(), other.term_seq()),
    {
        proof {
            use_type_invariant(self);
        }
        let ghost a = self.term_seq();
        let ghost b = other.term_seq();
        let mut r = Polynomial::zero();
        let len = self.terms.len();
        let mut i: usize = 0;
        while i < len
            invariant
                len == self.terms@.len() == a.len(),
                a == self.term_seq(),
                b == other.term_seq(),
                nonzero_values(a),
                same_len(a, b),
                pair_fits(b, a),
                i <= len,
                r@ == map_mul(a.subrange(0, i as int), b),
            decreases len - i,
        {
            let e = self.terms[i].0.duplicate();
            let c = self.terms[i].1.duplicate();
            proof {
                assert(a[i as int] == (e@, c@));
                assert(a.subrange(0, i + 1).drop_last() =~= a.subrange(0, i as int));
                assert(a.subrange(0, i + 1).last() == a[i as int]);
                assert forall|p: int| 0 <= p < b.len() implies (#[trigger] b[p].0).len() == e@.len() by {
                    assert(a[i as int].0.len() == b[p].0.len());
                }
                assert forall|p: int, k: int| 0 <= p < b.len() && 0 <= k < e@.len() implies b[p].0[k] + e@[k] <= u32::MAX by {
                    assert(a[i as int].0.len() == b[p].0.len());
                }
            }
            let t = other.mul_term(e, c);
            r.add_assign(t);
            i = i + 1;
        }
        proof {
            assert(a.subrange(0, len as int) =~= a);
        }
        r
    }
}

impl Polynomial {
    /// The polynomial has the term `c * x^e`.
    fn has_term(&self, e: &Exponent, c: &Rat) -> (r: bool)
        ensures
            r == (self@.contains_key(e@) && self@[e@] == c@),
    {
        proof {
            use_type_invariant(self);
            lemma_seq_to_map(self.term_seq());
        }
        let ghost ts = self.term_seq();
        let mut i: usize = 0;
        while i < self.terms.len()
            invariant
                i <= self.terms@.len() == ts.len(),
                ts == self.term_seq(),
                distinct_keys(ts),
                forall|j: int| 0 <= j < i ==> ts[j].0 != e@,
            decreases self.terms@.len() - i,
        {
            assert(ts[i as int] == term_view(self.terms@[i as int]));
            if self.terms[i].0.equals(e) {
                proof {
                    lemma_seq_to_map(ts);
                }
                assert(seq_to_map(ts).contains_key(ts[i as int].0) && seq_to_map(ts)[ts[i as int].0] == ts[i as int].1);
                return self.terms[i].1.eq(c);
            }
            i = i + 1;
        }
        proof {
            if self@.contains_key(e@) {
                let j = choose|j: int| 0 <= j < ts.len() && ts[j].0 == e@;
            }
        }
        false
    }

    /// The two polynomials are equal.
    pub fn equals(&self, other: &Polynomial) -> (r: bool)
        ensures
            r == (self@ == other@),
    {
        proof {
            use_type_invariant(self);
            use_type_invariant(other);
            lemma_seq_to_map(self.term_seq());
            lemma_seq_to_map(other.term_seq());
        }
        let ghost ts = self.term_seq();
        if self.terms.len() != other.terms.len() {
            assert(self@.dom().len() != other@.dom().len());
            return false;
        }
        let mut i: usize = 0;
        while i < self.terms.len()
            invariant
                i <= self.terms@.len() == ts.len(),
                ts == self.term_seq(),
                forall|j: int| 0 <= j < i ==> other@.contains_key(#[trigger] ts[j].0) && other@[ts[j].0] == ts[j].1,
            decreases self.terms@.len() - i,
        {
            assert(ts[i as int] == term_view(self.terms@[i as int]));
            if !other.has_term(&self.terms[i].0, &self.terms[i].1) {
                proof {
                    use_type_invariant(self);
                    lemma_seq_to_map(ts);
                }
                assert(seq_to_map(ts).contains_key(ts[i as int].0) && seq_to_map(ts)[ts[i as int].0] == ts[i as int].1);
                return false;
            }
            i = i + 1;
        }
        proof {
            assert(self@.dom().subset_of(other@.dom())) by {
                assert forall|k: Seq<u32>| self@.contains_key(k) implies other@.contains_key(k) by {
                    let j = choose|j: int| 0 <= j < ts.len() && ts[j].0 == k;
                }
            }
            vstd::set_lib::lemma_subset_equality(self@.dom(), other@.dom());
            assert forall|k: Seq<u32>| #[trigger] self@.contains_key(k) implies self@[k] == other@[k] by {
                let j = choose|j: int| 0 <= j < ts.len() && ts[j].0 == k;
            }
            assert(self@ =~= other@);
        }
        true
    }
}

/// `m` is the constant `c`: the zero polynomial with `c = 0`, or the single
/// term `c` whose exponent is all zeros.
pub open spec fn is_constant_map(m: Map<Seq<u32>, Q>, c: Q) -> bool {
    ||| m == Map::<Seq<u32>, Q>::empty() && c == qint(0)
    ||| exists|k: Seq<u32>| m == map![k => c] && forall|j: int| 0 <= j < k.len() ==> #[trigger] k[j] == 0
}

impl Polynomial {
    /// The constant that the polynomial is, if it is one.
    pub fn as_constant(&self) -> (r: Option<Rat>)
        ensures
            r matches Some(c) ==> is_constant_map(self@, c@),
            r is None <==> forall|c: Q| !is_constant_map(self@, c),
    {
        proof {
            use_type_invariant(self);
            lemma_seq_to_map(self.term_seq());
        }
        let ghost ts = self.term_seq();
        if self.terms.len() == 0 {
            assert(self@ =~= Map::<Seq<u32>, Q>::empty());
            assert(is_constant_map(self@, qint(0)));
            return Some(Rat::from_i64(0));
        }
        if self.terms.len() > 1 {
            proof {
                assert forall|c: Q| !is_constant_map(self@, c) by {
                    assert(self@.contains_key(ts[0].0) && self@.contains_key(ts[1].0));
                    if self@ == Map::<Seq<u32>, Q>::empty() {
                        assert(!Map::<Seq<u32>, Q>::empty().contains_key(ts[0].0));
                    }
                    if exists|k: Seq<u32>| self@ == map![k => c] && forall|j: int| 0 <= j < k.len() ==> #[trigger] k[j] == 0 {
                        let k = choose|k: Seq<u32>| self@ == map![k => c] && forall|j: int| 0 <= j < k.len() ==> #[trigger] k[j] == 0;
                        assert(ts[0].0 == k && ts[1].0 == k);
                    }
                }
            }
            return None;
        }
        let xs = self.terms[0].0.as_slice();
        assert(ts[0] == term_view(self.terms@[0]));
        let mut i: usize = 0;
        while i < xs.len()
            invariant
                ts == self.term_seq(),
                ts.len() == 1,
                xs@ == ts[0].0,
                i <= xs@.len(),
                forall|j: int| 0 <= j < i ==> #[trigger] xs@[j] == 0,
            decreases xs@.len() - i,
        {
            if xs[i] != 0 {
                proof {
                    use_type_invariant(self);
                    lemma_seq_to_map(ts);
                    assert forall|c: Q| !is_constant_map(self@, c) by {
                        assert(self@.contains_key(ts[0].0));
                        if self@ == Map::<Seq<u32>, Q>::empty() {
                            assert(!Map::<Seq<u32>, Q>::empty().contains_key(ts[0].0));
                        }
                        if exists|k: Seq<u32>| self@ == map![k => c] && forall|j: int| 0 <= j < k.len() ==> #[trigger] k[j] == 0 {
                            let k = choose|k: Seq<u32>| self@ == map![k => c] && forall|j: int| 0 <= j < k.len() ==> #[trigger] k[j] == 0;
                            assert(ts[0].0 == k);
                            assert(k[i as int] == 0);
                        }
                    }
                }
                return None;
            }
            i = i + 1;
        }
        let c = self.terms[0].1.duplicate();
        proof {
            assert(self@ =~= map![ts[0].0 => c@]);
            assert(forall|j: int| 0 <= j < ts[0].0.len() ==> #[trigger] ts[0].0[j] == 0);
            let k0 = ts[0].0;
            assert(self@ == map![k0 => c@] && forall|j: int| 0 <= j < k0.len() ==> #[trigger] k0[j] == 0);
            assert(is_constant_map(self@, c@));
        }
        Some(c)
    }
}

/// Every coefficient of a well-formed polynomial is non-zero and in reduced form.
pub proof fn lemma_view_values(p: Polynomial)
    requires
        p.well_formed(),
    ensures
        forall|k: Seq<u32>| #[trigger] p@.contains_key(k) ==> p@[k].n != 0 && qcanon(p@[k]),
{
    let ts = p.term_seq();
    lemma_seq_to_map(ts);
    assert forall|k: Seq<u32>| #[trigger] p@.contains_key(k) implies p@[k].n != 0 && qcanon(p@[k]) by {
        let j = choose|j: int| 0 <= j < ts.len() && ts[j].0 == k;
        assert(ts[j].1.n != 0 && qcanon(ts[j].1));
    }
}

/// `perm` lists each position below `n` once.
pub open spec fn index_permutation(perm: Seq<int>, n: nat) -> bool {
    &&& perm.len() == n
    &&& forall|i: int| 0 <= i < n ==> 0 <= #[trigger] perm[i] < n
    &&& forall|i: int, j: int| 0 <= i < n && 0 <= j < n && i != j ==> #[trigger] perm[i] != #[trigger] perm[j]
}

/// `t` lists the terms of `s` in the order `perm`.
pub open spec fn reorders(s: Seq<(Seq<u32>, Q)>, t: Seq<(Seq<u32>, Q)>, perm: Seq<int>) -> bool {
    &&& t.len() == s.len()
    &&& index_permutation(perm, s.len())
    &&& forall|i: int| 0 <= i < t.len() ==> #[trigger] t[i] == s[perm[i]]
}

/// Term `i + 1` comes strictly before term `i` in the monomial order.
pub open spec fn desc_step(s: Seq<(Seq<u32>, Q)>, i: int) -> bool {
    exp_lt(s[i + 1].0, s[i].0)
}

/// The terms are in strictly decreasing monomial order.
pub open spec fn lex_desc(s: Seq<(Seq<u32>, Q)>) -> bool {
    forall|i: int| 0 <= i < s.len() - 1 ==> #[trigger] desc_step(s, i)
}

impl Polynomial {
    /// The terms, greatest exponent first.
    pub fn lex_iter(&self) -> (r: Vec<(Exponent, Rat)>)
        ensures
            lex_desc(terms_view(r@)),
            exists|perm: Seq<int>| #[trigger] reorders(self.term_seq(), terms_view(r@), perm),
    {
        proof {
            use_type_invariant(self);
        }
        let ghost ts = self.term_seq();
        let n = self.terms.len();
        let mut out: Vec<(Exponent, Rat)> = Vec::new();
        let ghost mut perm: Seq<int> = Seq::empty();
        let mut k: usize = 0;
        while k < n
            invariant
                n == self.terms@.len() == ts.len(),
                ts == self.term_seq(),
                distinct_keys(ts),
                k <= n,
                out@.len() == k,
                perm.len() == k,
                forall|t: int| 0 <= t < k ==> 0 <= #[trigger] perm[t] < k,
                forall|a: int, b: int| 0 <= a < k && 0 <= b < k && a != b ==> #[trigger] perm[a] != #[trigger] perm[b],
                forall|t: int| 0 <= t < k ==> #[trigger] terms_view(out@)[t] == ts[perm[t]],
                lex_desc(terms_view(out@)),
            decreases n - k,
        {
            let e = self.terms[k].0.duplicate();
            let c = self.terms[k].1.duplicate();
            proof {
                assert(ts[k as int] == (e@, c@));
            }
            let ghost ov = terms_view(out@);
            let mut pos: usize = 0;
            while pos < out.len()
                invariant
                    pos <= out@.len(),
                    ov == terms_view(out@),
                    forall|i: int| 0 <= i < pos ==> !exp_lt(ov[i].0, e@),
                ensures
                    pos <= out@.len(),
                    forall|i: int| 0 <= i < pos ==> !exp_lt(ov[i].0, e@),
                    pos < out@.len() ==> exp_lt(ov[pos as int].0, e@),
                decreases out@.len() - pos,
            {
                assert(ov[pos as int] == term_view(out@[pos as int]));
                if out[pos].0.less_than(&e) {
                    break;
                }
                pos = pos + 1;
            }
            let ghost before = out@;
            out.insert(pos, (e, c));
            proof {
                let p = pos as int;
                let t = terms_view(out@);
                assert(t =~= ov.insert(p, (e@, c@)));
                let np = perm.insert(p, k as int);
                if p > 0 {
                    let q = perm[p - 1];
                    assert(ov[p - 1] == ts[q]);
                    assert(q != k);
                    assert(ts[q].0 != ts[k as int].0);
                    lemma_exp_lt_trichotomy(ov[p - 1].0, e@);
                }
                assert forall|i: int| 0 <= i < t.len() - 1 implies #[trigger] desc_step(t, i) by {
                    if i + 1 < p {
                        assert(t[i] == ov[i] && t[i + 1] == ov[i + 1]);
                        assert(desc_step(ov, i));
                    } else if i + 1 == p {
                        assert(t[i] == ov[i]);
                    } else if i == p {
                        assert(t[i + 1] == ov[p]);
                    } else {
                        assert(t[i] == ov[i - 1] && t[i + 1] == ov[i]);
                        assert(desc_step(ov, i - 1));
                    }
                }
                assert forall|i: int| 0 <= i < k + 1 implies #[trigger] t[i] == ts[np[i]] by {
                    if i < p {
                        assert(t[i] == ov[i]);
                    } else if i > p {
                        assert(t[i] == ov[i - 1]);
                    }
                }
                assert forall|a: int, b: int| 0 <= a < k + 1 && 0 <= b < k + 1 && a != b implies #[trigger] np[a]
                    != #[trigger] np[b] by {
                    if a < p && b < p {
                        assert(np[a] == perm[a] && np[b] == perm[b]);
                    } else if a < p && b > p {
                        assert(np[a] == perm[a] && np[b] == perm[b - 1]);
                    } else if a > p && b < p {
                        assert(np[a] == perm[a - 1] && np[b] == perm[b]);
                    } else if a > p && b > p {
                        assert(np[a] == perm[a - 1] && np[b] == perm[b - 1]);
                    } else if a == p {
                        if b < p {
                            assert(np[b] == perm[b]);
                        } else {
                            assert(np[b] == perm[b - 1]);
                        }
                    } else {
                        if a < p {
                            assert(np[a] == perm[a]);
                        } else {
                            assert(np[a] == perm[a - 1]);
                        }
                    }
                }
                assert forall|i: int| 0 <= i < k + 1 implies 0 <= #[trigger] np[i] < k + 1 by {
                    if i < p {
                        assert(np[i] == perm[i]);
                    } else if i > p {
                        assert(np[i] == perm[i - 1]);
                    }
                }
                perm = np;
            }
            k = k + 1;
        }
        proof {
            assert(reorders(ts, terms_view(out@), perm));
        }
        out
    }
}

/// Every exponent in the domain of `m` has `n` entries, none of them above `d`.
pub open spec fn keys_within(m: Map<Seq<u32>, Q>, n: nat, d: int) -> bool {
    forall|k: Seq<u32>| #[trigger] m.contains_key(k) ==> k.len() == n && forall|j: int| 0 <= j < n ==> k[j] <= d
}

/// Every exponent of `s` has `n` entries, none of them above `d`.
pub open spec fn terms_within(s: Seq<(Seq<u32>, Q)>, n: nat, d: int) -> bool {
    forall|i: int| 0 <= i < s.len() ==> (#[trigger] s[i].0).len() == n && forall|j: int| 0 <= j < n ==> s[i].0[j] <= d
}

/// Adding terms within the bounds keeps every exponent within them.
pub proof fn lemma_map_add_terms_within(m: Map<Seq<u32>, Q>, s: Seq<(Seq<u32>, Q)>, n: nat, d: int)
    requires
        keys_within(m, n, d),
        terms_within(s, n, d),
    ensures
        keys_within(map_add_terms(m, s), n, d),
    decreases s.len(),
{
    if s.len() > 0 {
        let t = s.drop_last();
        assert(terms_within(t, n, d)) by {
            assert forall|i: int| 0 <= i < t.len() implies (#[trigger] t[i].0).len() == n && forall|j: int|
                0 <= j < n ==> t[i].0[j] <= d by {
                assert(t[i] == s[i]);
            }
        }
        lemma_map_add_terms_within(m, t, n, d);
        assert(s.last() == s[s.len() - 1]);
    }
}

/// A product of term lists whose exponents are bounded by `da` and `db` has
/// exponents bounded by `da + db`.
pub proof fn lemma_map_mul_within(a: Seq<(Seq<u32>, Q)>, b: Seq<(Seq<u32>, Q)>, n: nat, da: int, db: int)
    requires
        terms_within(a, n, da),
        terms_within(b, n, db),
        0 <= da,
        0 <= db,
        da + db <= u32::MAX,
    ensures
        keys_within(map_mul(a, b), n, da + db),
    decreases a.len(),
{
    if a.len() > 0 {
        let t = a.drop_last();
        assert(terms_within(t, n, da)) by {
            assert forall|i: int| 0 <= i < t.len() implies (#[trigger] t[i].0).len() == n && forall|j: int|
                0 <= j < n ==> t[i].0[j] <= da by {
                assert(t[i] == a[i]);
            }
        }
        lemma_map_mul_within(t, b, n, da, db);
        let e = a.last().0;
        assert(a.last() == a[a.len() - 1]);
        let m = terms_mul_term(b, e, a.last().1);
        assert(terms_within(m, n, da + db)) by {
            assert forall|i: int| 0 <= i < m.len() implies (#[trigger] m[i].0).len() == n && forall|j: int|
                0 <= j < n ==> m[i].0[j] <= da + db by {
                assert(b[i].0.len() == n);
                assert forall|j: int| 0 <= j < n implies m[i].0[j] <= da + db by {
                    assert(m[i].0[j] == b[i].0[j] + e[j]);
                    assert(b[i].0[j] <= db);
                    assert(e[j] <= da);
                }
            }
        }
        lemma_map_add_terms_within(map_mul(t, b), m, n, da + db);
    }
}

/// For a well-formed polynomial, the bounds hold of its stored exponents
/// exactly when they hold of the exponents of its view.
pub proof fn lemma_terms_within_view(p: Polynomial, n: nat, d: int)
    requires
        p.well_formed(),
    ensures
        terms_within(p.term_seq(), n, d) <==> keys_within(p@, n, d),
{
    let ts = p.term_seq();
    lemma_seq_to_map(ts);
    if terms_within(ts, n, d) {
        assert forall|k: Seq<u32>| #[trigger] p@.contains_key(k) implies k.len() == n && forall|j: int|
            0 <= j < n ==> k[j] <= d by {
            let i = choose|i: int| 0 <= i < ts.len() && ts[i].0 == k;
        }
    }
    if keys_within(p@, n, d) {
        assert forall|i: int| 0 <= i < ts.len() implies (#[trigger] ts[i].0).len() == n && forall|j: int|
            0 <= j < n ==> ts[i].0[j] <= d by {
            assert(p@.contains_key(ts[i].0));
        }
    }
}

// ---------------------------------------------------------------------------
// Laws
// ---------------------------------------------------------------------------
/// Negating a polynomial twice gives back its terms: `neg` undoes itself.
pub proof fn lemma_neg_involution(s: Seq<(Seq<u32>, Q)>)
    ensures
        terms_neg(terms_neg(s)) == s,
{
    assert(terms_neg(terms_neg(s)) =~= s);
}

/// Subtracting `b` from `a + b` gives back `a`: `Exponent::sub` undoes
/// `Exponent::add`.
pub proof fn lemma_exp_add_sub(a: Seq<u32>, b: Seq<u32>)
    requires
        a.len() == b.len(),
        forall|i: int| 0 <= i < a.len() ==> a[i] + b[i] <= u32::MAX,
    ensures
        exp_ge(exp_add(a, b), b),
        exp_diff(exp_add(a, b), b) == a,
{
    assert(exp_diff(exp_add(a, b), b) =~= a);
}

/// The least common multiple of two monomials divided by the first is the
/// second with the first cancelled (`saturated_sub`): what an S-polynomial
/// multiplies each polynomial by.
pub proof fn lemma_lcm_over_monomial(a: Seq<u32>, b: Seq<u32>)
    requires
        a.len() == b.len(),
    ensures
        exp_ge(exp_max(a, b), a),
        exp_diff(exp_max(a, b), a) == exp_sat_diff(b, a),
        exp_add(a, exp_sat_diff(b, a)) == exp_max(a, b),
{
    assert(exp_diff(exp_max(a, b), a) =~= exp_sat_diff(b, a));
    assert(exp_add(a, exp_sat_diff(b, a)) =~= exp_max(a, b));
}

// ---------------------------------------------------------------------------
// Text
// ---------------------------------------------------------------------------
/// Variable `i` (counted from 1 in the text) to the power `e`: `x3`, `x3^2`,
/// or nothing when `e` is 0.
pub open spec fn var_power_text(i: nat, e: u32) -> Seq<char> {
    if e == 1 {
        seq!['x'] + nat_text(i + 1)
    } else if e > 1 {
        seq!['x'] + nat_text(i + 1) + seq!['^'] + nat_text(e as nat)
    } else {
        Seq::empty()
    }
}

/// The text of the first `k` entries of an exponent vector.
pub open spec fn exp_text(s: Seq<u32>, k: nat) -> Seq<char>
    decreases k,
{
    if k == 0 || k > s.len() {
        Seq::empty()
    } else {
        exp_text(s, (k - 1) as nat) + var_power_text((k - 1) as nat, s[k - 1])
    }
}

impl Exponent {
    /// The monomial as text, such as `x1^2x3`.
    pub fn to_text(&self) -> (r: String)
        ensures
            r@ == exp_text(self@, self@.len()),
    {
        let mut s = String::new();
        let mut i: usize = 0;
        while i < self.0.len()
            invariant
                i <= self@.len(),
                s@ == exp_text(self@, i as nat),
            decreases self@.len() - i,
        {
            let e = self.0[i];
            proof {
                reveal_strlit("x");
                reveal_strlit("^");
            }
            if e == 1 {
                s.append("x");
                s.append(usize_text(i + 1).as_str());
            } else if e > 1 {
                s.append("x");
                s.append(usize_text(i + 1).as_str());
                s.append("^");
                s.append(usize_text(e as usize).as_str());
            }
            i = i + 1;
        }
        s
    }
}

/// The text of a term: its coefficient, then its monomial.
pub open spec fn term_text(t: (Seq<u32>, Q)) -> Seq<char> {
    rat_text(t.1) + exp_text(t.0, t.0.len())
}

/// The text of a term after the first: ` + ` or ` - ` and the term with
/// its coefficient made positive (nothing for a zero coefficient).
pub open spec fn signed_term_text(t: (Seq<u32>, Q)) -> Seq<char> {
    if t.1.n == 0 {
        Seq::empty()
    } else if t.1.n > 0 {
        seq![' ', '+', ' '] + term_text(t)
    } else {
        seq![' ', '-', ' '] + term_text((t.0, qneg(t.1)))
    }
}

/// The text of the terms `1..k`.
pub open spec fn rest_text(ts: Seq<(Seq<u32>, Q)>, k: nat) -> Seq<char>
    decreases k,
{
    if k <= 1 || k > ts.len() {
        Seq::empty()
    } else {
        rest_text(ts, (k - 1) as nat) + signed_term_text(ts[k - 1])
    }
}

/// The text of a list of terms: `0` when there are none.
pub open spec fn poly_text(ts: Seq<(Seq<u32>, Q)>) -> Seq<char> {
    if ts.len() == 0 {
        seq!['0']
    } else {
        term_text(ts[0]) + rest_text(ts, ts.len())
    }
}

impl Polynomial {
    /// The polynomial as text, greatest monomial first, such as
    /// `3x1^2 - 1/2x2 + 1`.
    pub fn to_text(&self) -> (r: String)
        ensures
            exists|ts: Seq<(Seq<u32>, Q)>, perm: Seq<int>|
                #![trigger reorders(self.term_seq(), ts, perm)]
                reorders(self.term_seq(), ts, perm) && lex_desc(ts) && r@ == poly_text(ts),
    {
        let terms = self.lex_iter();
        let ghost ts = terms_view(terms@);
        proof {
            reveal_strlit("0");
            reveal_strlit(" + ");
            reveal_strlit(" - ");
        }
        if terms.len() == 0 {
            return String::from_str("0");
        }
        assert(ts[0] == term_view(terms@[0]));
        let mut s = terms[0].1.to_text();
        s.append(terms[0].0.to_text().as_str());
        let mut i: usize = 1;
        while i < terms.len()
            invariant
                ts == terms_view(terms@),
                1 <= i <= terms@.len(),
                s@ == term_text(ts[0]) + rest_text(ts, i as nat),
            decreases terms@.len() - i,
        {
            assert(ts[i as int] == term_view(terms@[i as int]));
            let c = &terms[i].1;
            let ghost before = s@;
            proof {
                use_type_invariant(c);
                reveal_strlit(" + ");
                reveal_strlit(" - ");
                assert(rest_text(ts, (i + 1) as nat) == rest_text(ts, i as nat) + signed_term_text(ts[i as int]));
            }
            if c.is_zero() {
                assert(signed_term_text(ts[i as int]) =~= Seq::<char>::empty());
                assert(s@ =~= before + signed_term_text(ts[i as int]));
            } else if c.is_positive() {
                s.append(" + ");
                let ct = c.to_text();
                s.append(ct.as_str());
                let et = terms[i].0.to_text();
                s.append(et.as_str());
                assert(s@ =~= before + signed_term_text(ts[i as int]));
            } else {
                s.append(" - ");
                let ct = c.neg().to_text();
                s.append(ct.as_str());
                let et = terms[i].0.to_text();
                s.append(et.as_str());
                assert(s@ =~= before + signed_term_text(ts[i as int]));
            }
            i = i + 1;
        }
        s
    }
}

} // verus!
