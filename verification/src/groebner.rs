//! Gröbner bases of polynomial ideals by Buchberger's algorithm, in the
//! lexicographic monomial order.
use crate::number::{qcanon, qdiv, qint, qneg, Q, Rat};
use crate::parser::ast::RelOp;
use crate::polynomial::{
    all_len, exp_diff, exp_ge, exp_lt, exp_max, exp_sat_diff, fits_with, keys_within, lemma_exp_lt_asymmetric, map_add_term,
    lemma_map_add_terms_within, lemma_terms_within_view, lemma_view_values, map_add_terms, seq_sum, terms_mul_term,
    terms_neg, terms_within, zeros, Exponent, Polynomial,
};
use vstd::prelude::*;

verus! {

/// Every exponent of `m` has `n` entries.
pub open spec fn in_vars(m: Map<Seq<u32>, Q>, n: nat) -> bool {
    keys_within(m, n, u32::MAX as int)
}

/// Every polynomial of `ps` is in `n` variables.
pub open spec fn all_in_vars(ps: Seq<Polynomial>, n: nat) -> bool {
    forall|i: int| 0 <= i < ps.len() ==> in_vars(#[trigger] ps[i]@, n)
}

/// `k` is the exponent of `m` greatest in the monomial order.
pub open spec fn is_leading(m: Map<Seq<u32>, Q>, k: Seq<u32>) -> bool {
    m.contains_key(k) && forall|j: Seq<u32>| #[trigger] m.contains_key(j) && j != k ==> exp_lt(j, k)
}

/// The leading exponent of a non-zero polynomial.
pub open spec fn leading_exp(m: Map<Seq<u32>, Q>) -> Seq<u32> {
    choose|k: Seq<u32>| is_leading(m, k)
}

/// A polynomial has at most one leading exponent.
pub proof fn lemma_leading(m: Map<Seq<u32>, Q>, k: Seq<u32>)
    requires
        is_leading(m, k),
    ensures
        leading_exp(m) == k,
{
    let l = leading_exp(m);
    assert(is_leading(m, l));
    if l != k {
        assert(exp_lt(l, k));
        assert(exp_lt(k, l));
        lemma_exp_lt_asymmetric(l, k);
    }
}

/// The values of a list of polynomials.
pub open spec fn views(ps: Seq<Polynomial>) -> Seq<Map<Seq<u32>, Q>> {
    ps.map_values(|p: Polynomial| p@)
}

/// No exponent of `m` is a multiple of the leading exponent of a non-zero
/// polynomial of `ds`.
pub open spec fn reduced_by(m: Map<Seq<u32>, Q>, ds: Seq<Map<Seq<u32>, Q>>) -> bool {
    forall|k: Seq<u32>, i: int|
        #[trigger] m.contains_key(k) && 0 <= i < ds.len() && #[trigger] ds[i] != Map::<Seq<u32>, Q>::empty() ==> !exp_ge(
            k,
            leading_exp(ds[i]),
        )
}

proof fn lemma_within_all_len(s: Seq<(Seq<u32>, Q)>, n: nat, d: int)
    requires
        terms_within(s, n, d),
    ensures
        all_len(s, n),
{
    assert forall|i: int| 0 <= i < s.len() implies (#[trigger] s[i].0).len() == n by {
        assert(s[i].0.len() == n);
    }
}

proof fn lemma_all_len_within(s: Seq<(Seq<u32>, Q)>, n: nat)
    requires
        all_len(s, n),
    ensures
        terms_within(s, n, u32::MAX as int),
{
    assert forall|i: int| 0 <= i < s.len() implies (#[trigger] s[i].0).len() == n && forall|j: int|
        0 <= j < n ==> s[i].0[j] <= u32::MAX as int by {
        assert(s[i].0.len() == n);
    }
}

/// Multiplying `p` by `x^e` keeps every exponent within `u32`.
fn fits(p: &Polynomial, e: &Exponent, Ghost(n): Ghost<nat>) -> (r: bool)
    requires
        in_vars(p@, n),
        e@.len() == n,
    ensures
        r == fits_with(p.term_seq(), e@),
{
    proof {
        use_type_invariant(p);
        lemma_terms_within_view(*p, n, u32::MAX as int);
    }
    let terms = p.raw_iter();
    let ghost ts = p.term_seq();
    let es = e.as_slice();
    let mut i: usize = 0;
    while i < terms.len()
        invariant
            crate::polynomial::terms_view(terms@) == ts,
            ts == p.term_seq(),
            terms_within(ts, n, u32::MAX as int),
            es@ == e@,
            e@.len() == n,
            i <= terms@.len(),
            forall|a: int, b: int| 0 <= a < i && 0 <= b < e@.len() ==> ts[a].0[b] + e@[b] <= u32::MAX,
        decreases terms@.len() - i,
    {
        let xs = terms[i].0.as_slice();
        assert(ts[i as int] == crate::polynomial::term_view(terms@[i as int]));
        assert(ts[i as int].0.len() == n);
        let mut j: usize = 0;
        while j < es.len()
            invariant
                i < ts.len(),
                ts == p.term_seq(),
                xs@ == ts[i as int].0,
                xs@.len() == n,
                es@ == e@,
                e@.len() == n,
                j <= n,
                forall|b: int| 0 <= b < j ==> ts[i as int].0[b] + e@[b] <= u32::MAX,
            decreases n - j,
        {
            if xs[j] as u64 + es[j] as u64 > u32::MAX as u64 {
                assert(ts[i as int].0[j as int] + e@[j as int] > u32::MAX);
                return false;
            }
            j = j + 1;
        }
        i = i + 1;
    }
    true
}

/// The position of the first non-zero polynomial of `ds`, from `i` on, whose
/// leading exponent divides `e`.
pub open spec fn first_divisor(e: Seq<u32>, ds: Seq<Map<Seq<u32>, Q>>, i: nat) -> Option<int>
    decreases ds.len() - i,
{
    if i >= ds.len() {
        None
    } else if ds[i as int] != Map::<Seq<u32>, Q>::empty() && exp_ge(e, leading_exp(ds[i as int])) {
        Some(i as int)
    } else {
        first_divisor(e, ds, i + 1)
    }
}

/// The terms of `d` times `f x^e`; none when `f` is zero.
pub open spec fn scaled_terms(d: Polynomial, e: Seq<u32>, f: Q) -> Seq<(Seq<u32>, Q)> {
    if f.n == 0 {
        Seq::empty()
    } else {
        terms_mul_term(d.term_seq(), e, f)
    }
}

/// One step of the division of `p`, with remainder so far `r`: `(1, p, r)`
/// when `p` is zero (done); `(2, p, r)` when cancelling the leading term
/// would leave `u32` (overflow); otherwise `(0, p', r')` after cancelling
/// the leading term of `p` by the first divisor whose leading exponent
/// divides it, or moving that term to the remainder.
pub open spec fn division_step(p: Map<Seq<u32>, Q>, r: Map<Seq<u32>, Q>, divs: Seq<Polynomial>) -> (
    int,
    Map<Seq<u32>, Q>,
    Map<Seq<u32>, Q>,
) {
    if p == Map::<Seq<u32>, Q>::empty() {
        (1, p, r)
    } else {
        let e = leading_exp(p);
        let c = p[e];
        match first_divisor(e, views(divs), 0) {
            Some(i) => {
                let d = divs[i];
                let lead = leading_exp(d@);
                let diff = exp_diff(e, lead);
                if !fits_with(d.term_seq(), diff) {
                    (2, p, r)
                } else {
                    (0, map_add_terms(p, terms_neg(scaled_terms(d, diff, qdiv(c, d@[lead])))), r)
                }
            },
            None => (0, map_add_term(p, e, qneg(c)), map_add_term(r, e, c)),
        }
    }
}

/// The state of the division of `p` by `divs` after `k` steps, starting
/// with remainder zero; a finished or overflowed state stays.
pub open spec fn division_iter(p: Map<Seq<u32>, Q>, divs: Seq<Polynomial>, k: nat) -> (
    int,
    Map<Seq<u32>, Q>,
    Map<Seq<u32>, Q>,
)
    decreases k,
{
    if k == 0 {
        (0, p, Map::<Seq<u32>, Q>::empty())
    } else {
        let prev = division_iter(p, divs, (k - 1) as nat);
        if prev.0 != 0 {
            prev
        } else {
            division_step(prev.1, prev.2, divs)
        }
    }
}

proof fn lemma_division_stays(p: Map<Seq<u32>, Q>, divs: Seq<Polynomial>, k: nat, m: nat)
    requires
        k <= m,
        division_iter(p, divs, k).0 != 0,
    ensures
        division_iter(p, divs, m) == division_iter(p, divs, k),
    decreases m - k,
{
    if k < m {
        lemma_division_stays(p, divs, k, (m - 1) as nat);
    }
}

proof fn lemma_first_divisor_skip(e: Seq<u32>, ds: Seq<Map<Seq<u32>, Q>>, i: nat, j: nat)
    requires
        i <= j <= ds.len(),
        forall|t: int| i <= t < j && #[trigger] ds[t] != Map::<Seq<u32>, Q>::empty() ==> !exp_ge(e, leading_exp(ds[t])),
    ensures
        first_divisor(e, ds, i) == first_divisor(e, ds, j),
    decreases j - i,
{
    if i < j {
        lemma_first_divisor_skip(e, ds, i + 1, j);
    }
}

/// Divides `dividend` by the list `divisors` and returns the remainder: a
/// term whose exponent is a multiple of the leading exponent of a divisor is
/// cancelled by a multiple of the first such divisor, any other term moves to
/// the remainder. `None` when an exponent would leave the range of `u32`.
fn multi_division(dividend: &Polynomial, divisors: &[Polynomial], Ghost(n): Ghost<nat>) -> (r: Option<Polynomial>)
    requires
        in_vars(dividend@, n),
        all_in_vars(divisors@, n),
    ensures
        r is Some <==> division_iter(dividend@, divisors@, u64::MAX as nat).0 == 1,
        r matches Some(q) ==> q@ == division_iter(dividend@, divisors@, u64::MAX as nat).2,
        r matches Some(q) ==> in_vars(q@, n) && reduced_by(q@, views(divisors@)),
{
    let ghost ds = views(divisors@);
    let ghost p0 = dividend@;
    let mut remainder = Polynomial::zero();
    let mut p = dividend.duplicate();
    let mut fuel: u64 = 0;
    loop
        invariant
            ds == views(divisors@),
            p0 == dividend@,
            all_in_vars(divisors@, n),
            in_vars(p@, n),
            in_vars(remainder@, n),
            reduced_by(remainder@, ds),
            division_iter(p0, divisors@, fuel as nat) == (0int, p@, remainder@),
        decreases u64::MAX - fuel,
    {
        if fuel == u64::MAX {
            return None;
        }
        let ghost f0 = fuel as nat;
        fuel = fuel + 1;
        let (exponent, coefficient) = match p.get_lt() {
            Some((e, c)) => (e.duplicate(), c.duplicate()),
            None => {
                proof {
                    assert(division_iter(p0, divisors@, f0 + 1) == (1int, p@, remainder@));
                    lemma_division_stays(p0, divisors@, f0 + 1, u64::MAX as nat);
                }
                return Some(remainder);
            },
        };
        proof {
            use_type_invariant(&p);
            lemma_view_values(p);
            lemma_leading(p@, exponent@);
        }
        let ghost p_before = p@;
        let ghost mut hit: int = 0;
        let mut divided = false;
        let mut idx: usize = 0;
        while idx < divisors.len() && !divided
            invariant
                ds == views(divisors@),
                all_in_vars(divisors@, n),
                in_vars(p@, n),
                exponent@.len() == n,
                qcanon(coefficient@),
                coefficient@.n != 0,
                p0 == dividend@,
                f0 < u64::MAX,
                division_iter(p0, divisors@, f0) == (0int, p_before, remainder@),
                p_before != Map::<Seq<u32>, Q>::empty(),
                exponent@ == leading_exp(p_before),
                coefficient@ == p_before[exponent@],
                idx <= divisors@.len(),
                !divided ==> p@.contains_key(exponent@),
                !divided ==> p@ == p_before,
                !divided ==> forall|t: int| 0 <= t < idx && #[trigger] ds[t] != Map::<Seq<u32>, Q>::empty() ==> !exp_ge(
                    exponent@,
                    leading_exp(ds[t]),
                ),
                divided ==> 0 <= hit < divisors@.len() && ds[hit] != Map::<Seq<u32>, Q>::empty() && exp_ge(
                    exponent@,
                    leading_exp(ds[hit]),
                ) && (forall|t: int|
                    0 <= t < hit && #[trigger] ds[t] != Map::<Seq<u32>, Q>::empty() ==> !exp_ge(exponent@, leading_exp(ds[t])))
                    && fits_with(divisors@[hit].term_seq(), exp_diff(exponent@, leading_exp(ds[hit]))) && p@ == map_add_terms(
                    p_before,
                    terms_neg(
                        scaled_terms(
                            divisors@[hit],
                            exp_diff(exponent@, leading_exp(ds[hit])),
                            qdiv(coefficient@, ds[hit][leading_exp(ds[hit])]),
                        ),
                    ),
                ),
            decreases divisors@.len() - idx,
        {
            let divisor = &divisors[idx];
            assert(ds[idx as int] == divisor@);
            assert(in_vars(divisors@[idx as int]@, n));
            match divisor.get_lt() {
                Some((de, dc)) => {
                    proof {
                        lemma_leading(divisor@, de@);
                        use_type_invariant(divisor);
                        lemma_view_values(*divisor);
                    }
                    match exponent.sub(de) {
                        Some(sub) => {
                            let factor = coefficient.div(dc);
                            if !fits(divisor, &sub, Ghost(n)) {
                                proof {
                                    lemma_first_divisor_skip(exponent@, ds, 0, idx as nat);
                                    assert(first_divisor(exponent@, ds, 0) == Some(idx as int));
                                    assert(division_iter(p0, divisors@, f0 + 1).0 == 2);
                                    lemma_division_stays(p0, divisors@, f0 + 1, u64::MAX as nat);
                                }
                                return None;
                            }
                            proof {
                                use_type_invariant(divisor);
                                lemma_terms_within_view(*divisor, n, u32::MAX as int);
                                lemma_within_all_len(divisor.term_seq(), n, u32::MAX as int);
                            }
                            let term = divisor.mul_term(sub, factor);
                            proof {
                                lemma_all_len_within(term.term_seq(), n);
                                lemma_terms_neg_within(term.term_seq(), n);
                                lemma_map_add_terms_within(p@, terms_neg(term.term_seq()), n, u32::MAX as int);
                            }
                            proof {
                                assert(term.term_seq() =~= scaled_terms(*divisor, sub@, factor@));
                                hit = idx as int;
                            }
                            p = p.sub(&term);
                            divided = true;
                        },
                        None => {},
                    }
                },
                None => {},
            }
            idx = idx + 1;
        }
        proof {
            if divided {
                lemma_first_divisor_skip(exponent@, ds, 0, hit as nat);
                assert(first_divisor(exponent@, ds, 0) == Some(hit));
                assert(ds[hit] == divisors@[hit]@);
                assert(division_iter(p0, divisors@, f0 + 1) == (0int, p@, remainder@));
            } else {
                lemma_first_divisor_skip(exponent@, ds, 0, ds.len());
                assert(first_divisor(exponent@, ds, 0) is None);
            }
        }
        if !divided {
            let ghost before = remainder@;
            remainder.add_term(exponent.duplicate(), coefficient.duplicate());
            proof {
                assert forall|k: Seq<u32>| #[trigger] remainder@.contains_key(k) implies k.len() == n && forall|j: int|
                    0 <= j < n ==> k[j] <= u32::MAX as int by {
                    if k != exponent@ {
                        assert(before.contains_key(k));
                    }
                }
                assert forall|k: Seq<u32>, i: int|
                    #[trigger] remainder@.contains_key(k) && 0 <= i < ds.len() && #[trigger] ds[i] != Map::<
                        Seq<u32>,
                        Q,
                    >::empty() implies !exp_ge(k, leading_exp(ds[i])) by {
                    if k != exponent@ {
                        assert(before.contains_key(k));
                    }
                }
            }
            let ghost before_p = p@;
            p.add_term(exponent, coefficient.neg());
            proof {
                assert forall|k: Seq<u32>| #[trigger] p@.contains_key(k) implies k.len() == n && forall|j: int|
                    0 <= j < n ==> k[j] <= u32::MAX as int by {
                    assert(before_p.contains_key(k));
                }
            }
        }
    }
}

proof fn lemma_terms_neg_within(s: Seq<(Seq<u32>, Q)>, n: nat)
    requires
        terms_within(s, n, u32::MAX as int),
    ensures
        terms_within(terms_neg(s), n, u32::MAX as int),
{
    let t = terms_neg(s);
    assert forall|i: int| 0 <= i < t.len() implies (#[trigger] t[i].0).len() == n && forall|j: int|
        0 <= j < n ==> t[i].0[j] <= u32::MAX as int by {
        assert(t[i].0 == s[i].0);
    }
}

/// The S-polynomial of two non-zero polynomials: each multiplied up to the
/// least common multiple of the leading monomials and by the other's leading
/// coefficient, then subtracted.
pub open spec fn s_poly_view(f: Polynomial, g: Polynomial) -> Map<Seq<u32>, Q> {
    let lf = leading_exp(f@);
    let lg = leading_exp(g@);
    map_add_terms(
        crate::polynomial::seq_to_map(terms_mul_term(f.term_seq(), exp_sat_diff(lg, lf), g@[lg])),
        terms_neg(terms_mul_term(g.term_seq(), exp_sat_diff(lf, lg), f@[lf])),
    )
}

/// The products that the S-polynomial of `f` and `g` takes stay within `u32`.
pub open spec fn s_poly_fits(f: Polynomial, g: Polynomial) -> bool {
    f@ != Map::<Seq<u32>, Q>::empty() && g@ != Map::<Seq<u32>, Q>::empty() ==> fits_with(
        f.term_seq(),
        exp_sat_diff(leading_exp(g@), leading_exp(f@)),
    ) && fits_with(g.term_seq(), exp_sat_diff(leading_exp(f@), leading_exp(g@)))
}


/// Whether the S-polynomial of `f` and `g` can be formed within `u32`.
fn s_pair_fits(f: &Polynomial, g: &Polynomial, Ghost(n): Ghost<nat>) -> (r: bool)
    requires
        in_vars(f@, n),
        in_vars(g@, n),
    ensures
        r == s_poly_fits(*f, *g),
{
    match (f.get_lt(), g.get_lt()) {
        (Some((fe, _)), Some((ge, _))) => {
            proof {
                lemma_leading(f@, fe@);
                lemma_leading(g@, ge@);
            }
            let a = ge.saturated_sub(fe);
            let b = fe.saturated_sub(ge);
            fits(f, &a, Ghost(n)) && fits(g, &b, Ghost(n))
        },
        _ => true,
    }
}

/// The S-polynomial of `f` and `g`; `None` when one of them is zero.
fn s_polynomial(f: &Polynomial, g: &Polynomial, Ghost(n): Ghost<nat>) -> (r: Option<Polynomial>)
    requires
        in_vars(f@, n),
        in_vars(g@, n),
        s_poly_fits(*f, *g),
    ensures
        r is None <==> (f@ == Map::<Seq<u32>, Q>::empty() || g@ == Map::<Seq<u32>, Q>::empty()),
        r matches Some(s) ==> in_vars(s@, n) && s@ == s_poly_view(*f, *g),
{
    match (f.get_lt(), g.get_lt()) {
        (Some((f_exp, f_coeff)), Some((g_exp, g_coeff))) => {
            proof {
                lemma_leading(f@, f_exp@);
                lemma_leading(g@, g_exp@);
                use_type_invariant(f);
                use_type_invariant(g);
                lemma_view_values(*f);
                lemma_view_values(*g);
                lemma_terms_within_view(*f, n, u32::MAX as int);
                lemma_terms_within_view(*g, n, u32::MAX as int);
                lemma_within_all_len(f.term_seq(), n, u32::MAX as int);
                lemma_within_all_len(g.term_seq(), n, u32::MAX as int);
            }
            let f_term = f.mul_term(g_exp.saturated_sub(f_exp), g_coeff.duplicate());
            let g_term = g.mul_term(f_exp.saturated_sub(g_exp), f_coeff.duplicate());
            proof {
                lemma_all_len_within(g_term.term_seq(), n);
                lemma_terms_neg_within(g_term.term_seq(), n);
                use_type_invariant(&f_term);
                lemma_all_len_within(f_term.term_seq(), n);
                lemma_terms_within_view(f_term, n, u32::MAX as int);
                lemma_map_add_terms_within(f_term@, terms_neg(g_term.term_seq()), n, u32::MAX as int);
            }
            Some(f_term.sub(&g_term))
        },
        _ => None,
    }
}

/// The degree of the least common multiple of the leading monomials of two
/// non-zero polynomials; 0 when one of them is zero.
pub open spec fn lcm_degree(a: Map<Seq<u32>, Q>, b: Map<Seq<u32>, Q>) -> int {
    if a != Map::<Seq<u32>, Q>::empty() && b != Map::<Seq<u32>, Q>::empty() {
        seq_sum(exp_max(leading_exp(a), leading_exp(b)))
    } else {
        0
    }
}

/// Sum of the entries of `e`.
fn degree_of(e: &Exponent) -> (r: u128)
    ensures
        r == seq_sum(e@),
{
    let xs = e.as_slice();
    let mut acc: u128 = 0;
    let mut i: usize = 0;
    while i < xs.len()
        invariant
            xs@ == e@,
            i <= xs@.len(),
            acc == seq_sum(e@.subrange(0, i as int)),
            acc <= i * (u32::MAX as int),
        decreases xs@.len() - i,
    {
        assert(e@.subrange(0, i + 1).drop_last() =~= e@.subrange(0, i as int));
        acc = acc + xs[i] as u128;
        i = i + 1;
    }
    assert(e@.subrange(0, xs@.len() as int) =~= e@);
    acc
}

/// The degree of the least common multiple of the leading monomials.
fn lcm_degree_of(f: &Polynomial, g: &Polynomial, Ghost(n): Ghost<nat>) -> (r: u128)
    requires
        in_vars(f@, n),
        in_vars(g@, n),
    ensures
        r == lcm_degree(f@, g@),
{
    match (f.get_lt(), g.get_lt()) {
        (Some((fe, _)), Some((ge, _))) => {
            proof {
                lemma_leading(f@, fe@);
                lemma_leading(g@, ge@);
            }
            degree_of(&fe.lcm(ge))
        },
        _ => 0,
    }
}

/// The pair `x` is handled before the pair `y`: greater degree of the least
/// common multiple of the leading monomials first, then in the order the
/// pairs were listed (`i`, then `j`).
pub open spec fn pair_before(ds: Seq<Map<Seq<u32>, Q>>, x: (usize, usize), y: (usize, usize)) -> bool {
    let kx = lcm_degree(ds[x.0 as int], ds[x.1 as int]);
    let ky = lcm_degree(ds[y.0 as int], ds[y.1 as int]);
    kx > ky || (kx == ky && (x.0 < y.0 || (x.0 == y.0 && x.1 < y.1)))
}

/// `s` lists every pair `(i, j)` with `i < j` of positions of `ds` once, in
/// the order `pair_before`.
pub open spec fn pair_list(ds: Seq<Map<Seq<u32>, Q>>, s: Seq<(usize, usize)>) -> bool {
    &&& forall|t: int| 0 <= t < s.len() ==> #[trigger] s[t].0 < s[t].1 < ds.len()
    &&& forall|i: usize, j: usize| i < j < ds.len() ==> #[trigger] s.contains((i, j))
    &&& forall|a: int, b: int| 0 <= a < b < s.len() ==> pair_before(ds, #[trigger] s[a], #[trigger] s[b])
}

/// The pairs of a list of keyed pairs.
spec fn pairs_of(k: Seq<((usize, usize), u128)>) -> Seq<(usize, usize)> {
    k.map_values(|e: ((usize, usize), u128)| e.0)
}

/// All pairs of positions of `basis`, listed by `pair_before`.
fn generate_pairs(basis: &[Polynomial], Ghost(n): Ghost<nat>) -> (r: Vec<(usize, usize)>)
    requires
        all_in_vars(basis@, n),
    ensures
        pair_list(views(basis@), r@),
{
    let ghost ds = views(basis@);
    let len = basis.len();
    let mut keyed: Vec<((usize, usize), u128)> = Vec::new();
    let mut i: usize = 0;
    while i < len
        invariant
            len == basis@.len() == ds.len(),
            ds == views(basis@),
            all_in_vars(basis@, n),
            i <= len,
            forall|t: int| 0 <= t < keyed@.len() ==> #[trigger] keyed@[t].0.0 < keyed@[t].0.1 < len && keyed@[t].0.0 < i
                && keyed@[t].1 == lcm_degree(ds[keyed@[t].0.0 as int], ds[keyed@[t].0.1 as int]),
            forall|a: usize, b: usize| a < i && a < b < len ==> #[trigger] pairs_of(keyed@).contains(
                (a, b),
            ),
            forall|a: int, b: int| 0 <= a < b < keyed@.len() ==> pair_before(ds, #[trigger] keyed@[a].0, #[trigger] keyed@[b].0),
        decreases len - i,
    {
        let mut j: usize = i + 1;
        while j < len
            invariant
                len == basis@.len() == ds.len(),
                ds == views(basis@),
                all_in_vars(basis@, n),
                i < len,
                i + 1 <= j <= len,
                forall|t: int| 0 <= t < keyed@.len() ==> #[trigger] keyed@[t].0.0 < keyed@[t].0.1 < len && (keyed@[t].0.0 < i
                    || (keyed@[t].0.0 == i && keyed@[t].0.1 < j)) && keyed@[t].1 == lcm_degree(
                    ds[keyed@[t].0.0 as int],
                    ds[keyed@[t].0.1 as int],
                ),
                forall|a: usize, b: usize|
                    (a < i && a < b < len) || (a == i && i < b < j) ==> #[trigger] pairs_of(keyed@).contains((a, b)),
                forall|a: int, b: int| 0 <= a < b < keyed@.len() ==> pair_before(ds, #[trigger] keyed@[a].0, #[trigger] keyed@[b].0),
            decreases len - j,
        {
            assert(ds[i as int] == basis@[i as int]@ && ds[j as int] == basis@[j as int]@);
            let key = lcm_degree_of(&basis[i], &basis[j], Ghost(n));
            let mut p: usize = 0;
            while p < keyed.len() && keyed[p].1 >= key
                invariant
                    p <= keyed@.len(),
                    forall|t: int| 0 <= t < p ==> #[trigger] keyed@[t].1 >= key,
                decreases keyed@.len() - p,
            {
                p = p + 1;
            }
            let ghost old_keyed = keyed@;
            keyed.insert(p, ((i, j), key));
            proof {
                let x = (i, j);
                assert(keyed@ =~= old_keyed.insert(p as int, (x, key)));
                assert forall|a: int, b: int| 0 <= a < b < keyed@.len() implies pair_before(
                    ds,
                    #[trigger] keyed@[a].0,
                    #[trigger] keyed@[b].0,
                ) by {
                    if b < p {
                        assert(keyed@[a] == old_keyed[a] && keyed@[b] == old_keyed[b]);
                    } else if b == p {
                        assert(keyed@[a] == old_keyed[a]);
                        assert(old_keyed[a].1 >= key);
                    } else if a == p {
                        assert(keyed@[b] == old_keyed[b - 1]);
                        assert(!(old_keyed[p as int].1 >= key));
                        let q = b - 1;
                        if q > p {
                            assert(pair_before(ds, old_keyed[p as int].0, old_keyed[q].0));
                        }
                    } else if a < p {
                        assert(keyed@[a] == old_keyed[a] && keyed@[b] == old_keyed[b - 1]);
                        let q = b - 1;
                        assert(pair_before(ds, old_keyed[a].0, old_keyed[q].0));
                    } else {
                        assert(keyed@[a] == old_keyed[a - 1] && keyed@[b] == old_keyed[b - 1]);
                        let q1 = a - 1;
                        let q2 = b - 1;
                        assert(pair_before(ds, old_keyed[q1].0, old_keyed[q2].0));
                    }
                }
                let pr = pairs_of(keyed@);
                let opr = pairs_of(old_keyed);
                assert forall|a: usize, b: usize| (a < i && a < b < len) || (a == i && i < b < j + 1) implies #[trigger] pr.contains(
                    (a, b),
                ) by {
                    if a == i && b == j {
                        assert(pr[p as int] == x);
                    } else {
                        assert(opr.contains((a, b)));
                        let t = choose|t: int| 0 <= t < opr.len() && opr[t] == (a, b);
                        if t < p {
                            assert(pr[t] == opr[t]);
                        } else {
                            assert(pr[t + 1] == opr[t]);
                        }
                    }
                }
                assert forall|t: int| 0 <= t < keyed@.len() implies #[trigger] keyed@[t].0.0 < keyed@[t].0.1 < len && (keyed@[t].0.0
                    < i || (keyed@[t].0.0 == i && keyed@[t].0.1 < j + 1)) && keyed@[t].1 == lcm_degree(
                    ds[keyed@[t].0.0 as int],
                    ds[keyed@[t].0.1 as int],
                ) by {
                    if t < p {
                        assert(keyed@[t] == old_keyed[t]);
                    } else if t > p {
                        assert(keyed@[t] == old_keyed[t - 1]);
                    }
                }
            }
            j = j + 1;
        }
        i = i + 1;
    }
    let mut out: Vec<(usize, usize)> = Vec::new();
    let mut t: usize = 0;
    while t < keyed.len()
        invariant
            t <= keyed@.len(),
            out@ == pairs_of(keyed@).subrange(0, t as int),
        decreases keyed@.len() - t,
    {
        out.push(keyed[t].0);
        t = t + 1;
        assert(out@ =~= pairs_of(keyed@).subrange(0, t as int));
    }
    proof {
        let pr = pairs_of(keyed@);
        assert(pr.subrange(0, keyed@.len() as int) =~= pr);
        assert forall|tt: int| 0 <= tt < out@.len() implies #[trigger] out@[tt].0 < out@[tt].1 < ds.len() by {
            assert(out@[tt] == pr[tt]);
            assert(pr[tt] == keyed@[tt].0);
            assert(keyed@[tt].0.0 < keyed@[tt].0.1 < len);
        }
        assert forall|a: int, b: int| 0 <= a < b < out@.len() implies pair_before(ds, #[trigger] out@[a], #[trigger] out@[b]) by {
            assert(out@[a] == keyed@[a].0 && out@[b] == keyed@[b].0);
        }
    }
    out
}

/// `a` and `b` have the same exponents, and the same leading exponent when
/// non-zero.
pub open spec fn same_shape(a: Map<Seq<u32>, Q>, b: Map<Seq<u32>, Q>) -> bool {
    a.dom() == b.dom() && (a != Map::<Seq<u32>, Q>::empty() ==> leading_exp(a) == leading_exp(b))
}

/// No polynomial of `ds` has an exponent that is a multiple of the leading
/// exponent of another non-zero polynomial of `ds`.
pub open spec fn inter_reduced(ds: Seq<Map<Seq<u32>, Q>>) -> bool {
    forall|i: int| 0 <= i < ds.len() ==> reduced_by(#[trigger] ds[i], ds.remove(i))
}

proof fn lemma_empty_iff_dom(a: Map<Seq<u32>, Q>, b: Map<Seq<u32>, Q>)
    requires
        a.dom() == b.dom(),
    ensures
        a == Map::<Seq<u32>, Q>::empty() <==> b == Map::<Seq<u32>, Q>::empty(),
{
    if a == Map::<Seq<u32>, Q>::empty() {
        assert(b =~= Map::<Seq<u32>, Q>::empty());
    }
    if b == Map::<Seq<u32>, Q>::empty() {
        assert(a =~= Map::<Seq<u32>, Q>::empty());
    }
}

proof fn lemma_reduced_by_shape(
    m1: Map<Seq<u32>, Q>,
    m2: Map<Seq<u32>, Q>,
    ds1: Seq<Map<Seq<u32>, Q>>,
    ds2: Seq<Map<Seq<u32>, Q>>,
)
    requires
        m1.dom() == m2.dom(),
        ds1.len() == ds2.len(),
        forall|j: int| 0 <= j < ds1.len() ==> same_shape(#[trigger] ds1[j], ds2[j]),
        reduced_by(m1, ds1),
    ensures
        reduced_by(m2, ds2),
{
    assert forall|k: Seq<u32>, i: int|
        #[trigger] m2.contains_key(k) && 0 <= i < ds2.len() && #[trigger] ds2[i] != Map::<Seq<u32>, Q>::empty() implies !exp_ge(
        k,
        leading_exp(ds2[i]),
    ) by {
        assert(same_shape(ds1[i], ds2[i]));
        lemma_empty_iff_dom(ds1[i], ds2[i]);
        assert(m1.contains_key(k));
    }
}

proof fn lemma_inter_reduced_shape(ds1: Seq<Map<Seq<u32>, Q>>, ds2: Seq<Map<Seq<u32>, Q>>)
    requires
        ds1.len() == ds2.len(),
        forall|j: int| 0 <= j < ds1.len() ==> same_shape(#[trigger] ds1[j], ds2[j]),
        inter_reduced(ds1),
    ensures
        inter_reduced(ds2),
{
    assert forall|i: int| 0 <= i < ds2.len() implies reduced_by(#[trigger] ds2[i], ds2.remove(i)) by {
        let r1 = ds1.remove(i);
        let r2 = ds2.remove(i);
        assert forall|j: int| 0 <= j < r1.len() implies same_shape(#[trigger] r1[j], r2[j]) by {
            if j < i {
                assert(r1[j] == ds1[j] && r2[j] == ds2[j]);
            } else {
                assert(r1[j] == ds1[j + 1] && r2[j] == ds2[j + 1]);
            }
        }
        assert(same_shape(ds1[i], ds2[i]));
        assert(reduced_by(ds1[i], r1));
        lemma_reduced_by_shape(ds1[i], ds2[i], r1, r2);
    }
}

/// Divides by the leading coefficient.
fn make_monic(poly: Polynomial, Ghost(n): Ghost<nat>) -> (r: Polynomial)
    requires
        in_vars(poly@, n),
    ensures
        in_vars(r@, n),
        same_shape(poly@, r@),
        poly@ == Map::<Seq<u32>, Q>::empty() ==> r.term_seq() == poly.term_seq(),
        poly@ != Map::<Seq<u32>, Q>::empty() ==> r.term_seq() == terms_mul_term(
            poly.term_seq(),
            crate::polynomial::zero_exp(n),
            qdiv(qint(1), poly@[leading_exp(poly@)]),
        ),
{
    proof {
        use_type_invariant(&poly);
        lemma_view_values(poly);
        lemma_terms_within_view(poly, n, u32::MAX as int);
        lemma_within_all_len(poly.term_seq(), n, u32::MAX as int);
    }
    match poly.get_lt() {
        Some((exponent, coeff)) => {
            proof {
                lemma_leading(poly@, exponent@);
            }
            if coeff.is_zero() {
                poly.duplicate()
            } else {
                let inv = Rat::from_i64(1).div(coeff);
                proof {
                    crate::number::lemma_qnorm_zero(coeff@.d, coeff@.n);
                    assert(1 * coeff@.d == coeff@.d);
                }
                let z = zeros(exponent.len());
                let ghost ts = poly.term_seq();
                let r = poly.mul_term(Exponent::new(z), inv);
                proof {
                    let t = r.term_seq();
                    let zz = crate::polynomial::zero_exp(n);
                    assert forall|i: int| 0 <= i < t.len() implies #[trigger] t[i].0 == ts[i].0 by {
                        assert(ts[i].0.len() == n);
                        assert(t[i].0 =~= ts[i].0);
                    }
                    use_type_invariant(&r);
                    crate::polynomial::lemma_seq_to_map(ts);
                    crate::polynomial::lemma_seq_to_map(t);
                    assert forall|k: Seq<u32>| r@.dom().contains(k) <==> poly@.dom().contains(k) by {
                        if r@.contains_key(k) {
                            let i = choose|i: int| 0 <= i < t.len() && t[i].0 == k;
                            assert(poly@.contains_key(ts[i].0));
                        }
                        if poly@.contains_key(k) {
                            let i = choose|i: int| 0 <= i < ts.len() && ts[i].0 == k;
                            assert(r@.contains_key(t[i].0));
                        }
                    }
                    assert(r@.dom() =~= poly@.dom());
                    assert(is_leading(r@, exponent@));
                    lemma_leading(r@, exponent@);
                    lemma_all_len_within(t, n);
                    lemma_terms_within_view(r, n, u32::MAX as int);
                }
                r
            }
        },
        None => {
            let r = poly.duplicate();
            r
        },
    }
}

/// The non-zero values of `ms`, in order.
pub open spec fn drop_zero(ms: Seq<Map<Seq<u32>, Q>>) -> Seq<Map<Seq<u32>, Q>>
    decreases ms.len(),
{
    if ms.len() == 0 {
        ms
    } else if ms.last() == Map::<Seq<u32>, Q>::empty() {
        drop_zero(ms.drop_last())
    } else {
        drop_zero(ms.drop_last()).push(ms.last())
    }
}

proof fn lemma_drop_zero(ms: Seq<Map<Seq<u32>, Q>>)
    ensures
        drop_zero(ms).len() <= ms.len(),
        forall|i: int| 0 <= i < drop_zero(ms).len() ==> #[trigger] drop_zero(ms)[i] != Map::<Seq<u32>, Q>::empty() && ms.contains(
            drop_zero(ms)[i],
        ),
        drop_zero(ms).len() == ms.len() ==> drop_zero(ms) == ms,
    decreases ms.len(),
{
    if ms.len() > 0 {
        let t = ms.drop_last();
        lemma_drop_zero(t);
        let d = drop_zero(ms);
        assert forall|i: int| 0 <= i < d.len() implies #[trigger] d[i] != Map::<Seq<u32>, Q>::empty() && ms.contains(d[i]) by {
            if i < drop_zero(t).len() {
                assert(d[i] == drop_zero(t)[i]);
                let k = choose|k: int| 0 <= k < t.len() && t[k] == d[i];
                assert(ms[k] == t[k]);
            } else {
                assert(d[i] == ms.last());
                assert(ms[ms.len() - 1] == ms.last());
            }
        }
        if d.len() == ms.len() {
            assert(ms.last() != Map::<Seq<u32>, Q>::empty());
            assert(drop_zero(t) == t);
            assert(ms =~= t.push(ms.last()));
        }
    }
}

/// The non-zero polynomials of `basis`, in order.
fn remove_zero_polynomials(basis: &[Polynomial]) -> (r: Vec<Polynomial>)
    ensures
        views(r@) == drop_zero(views(basis@)),
{
    let ghost vb = views(basis@);
    let mut out: Vec<Polynomial> = Vec::new();
    let mut i: usize = 0;
    while i < basis.len()
        invariant
            vb == views(basis@),
            i <= basis@.len(),
            views(out@) == drop_zero(vb.subrange(0, i as int)),
        decreases basis@.len() - i,
    {
        let ghost prev = out@;
        assert(vb.subrange(0, i + 1).drop_last() =~= vb.subrange(0, i as int));
        assert(vb.subrange(0, i + 1).last() == basis@[i as int]@);
        if !basis[i].is_zero() {
            out.push(basis[i].duplicate());
            assert(views(out@) =~= views(prev).push(basis@[i as int]@));
        }
        i = i + 1;
    }
    assert(vb.subrange(0, basis@.len() as int) =~= vb);
    out
}

/// Copies of the polynomials.
fn copy_all(ps: &[Polynomial]) -> (r: Vec<Polynomial>)
    ensures
        r@.len() == ps@.len(),
        views(r@) == views(ps@),
        forall|i: int| 0 <= i < ps@.len() ==> (#[trigger] r@[i]).term_seq() == ps@[i].term_seq(),
{
    let mut out: Vec<Polynomial> = Vec::new();
    let mut i: usize = 0;
    while i < ps.len()
        invariant
            i <= ps@.len(),
            out@.len() == i,
            forall|t: int| 0 <= t < i ==> (#[trigger] out@[t]).term_seq() == ps@[t].term_seq() && out@[t]@ == ps@[t]@,
        decreases ps@.len() - i,
    {
        out.push(ps[i].duplicate());
        i = i + 1;
    }
    assert(views(out@) =~= views(ps@));
    out
}

/// Copies of all the polynomials but the one at `i`.
fn others_of(ps: &Vec<Polynomial>, i: usize) -> (r: Vec<Polynomial>)
    requires
        i < ps@.len(),
    ensures
        views(r@) == views(ps@).remove(i as int),
{
    let mut out: Vec<Polynomial> = Vec::new();
    let mut j: usize = 0;
    while j < ps.len()
        invariant
            i < ps@.len(),
            j <= ps@.len(),
            out@.len() == if j <= i { j as int } else { j - 1 },
            forall|t: int| 0 <= t < out@.len() ==> (#[trigger] out@[t])@ == views(ps@).remove(i as int)[t],
        decreases ps@.len() - j,
    {
        if j != i {
            out.push(ps[j].duplicate());
        }
        j = j + 1;
    }
    assert(views(out@) =~= views(ps@).remove(i as int));
    out
}


/// Replaces each polynomial by its remainder on division by the others, over
/// and over until none changes. The flag tells whether any changed. `None`
/// when a division gives up.
fn remainder_reduce_basis(basis: &[Polynomial], Ghost(n): Ghost<nat>) -> (r: Option<(bool, Vec<Polynomial>)>)
    requires
        all_in_vars(basis@, n),
    ensures
        r matches Some((changed, reduced)) ==> reduced@.len() == basis@.len() && all_in_vars(reduced@, n) && inter_reduced(
            views(reduced@),
        ) && (!changed ==> views(reduced@) == views(basis@)),
{
    let mut reduced = copy_all(basis);
    proof {
        assert forall|i: int| 0 <= i < reduced@.len() implies in_vars(#[trigger] reduced@[i]@, n) by {
            assert(views(reduced@)[i] == views(basis@)[i]);
        }
    }
    let mut finished = false;
    let mut changed = false;
    let mut fuel: u64 = 0;
    while !finished
        invariant
            reduced@.len() == basis@.len(),
            all_in_vars(reduced@, n),
            !changed ==> views(reduced@) == views(basis@),
            finished ==> inter_reduced(views(reduced@)),
        decreases u64::MAX - fuel,
    {
        if fuel == u64::MAX {
            return None;
        }
        fuel = fuel + 1;
        finished = true;
        let mut i: usize = 0;
        while i < reduced.len()
            invariant
                reduced@.len() == basis@.len(),
                all_in_vars(reduced@, n),
                !changed ==> views(reduced@) == views(basis@),
                i <= reduced@.len(),
                finished ==> forall|t: int| 0 <= t < i ==> reduced_by(#[trigger] views(reduced@)[t], views(reduced@).remove(t)),
            decreases reduced@.len() - i,
        {
            let others = others_of(&reduced, i);
            proof {
                let vr = views(reduced@);
                assert(views(others@).len() == others@.len());
                assert(vr.len() == reduced@.len());
                assert(others@.len() == reduced@.len() - 1);
                assert forall|t: int| 0 <= t < others@.len() implies in_vars(#[trigger] others@[t]@, n) by {
                    assert(views(others@)[t] == others@[t]@);
                    if t < i {
                        assert(vr.remove(i as int)[t] == vr[t]);
                        assert(vr[t] == reduced@[t]@);
                    } else {
                        assert(vr.remove(i as int)[t] == vr[t + 1]);
                        assert(vr[t + 1] == reduced@[t + 1]@);
                    }
                }
                assert(in_vars(reduced@[i as int]@, n));
            }
            let r = match multi_division(&reduced[i], others.as_slice(), Ghost(n)) {
                Some(r) => r,
                None => {
                    return None;
                },
            };
            if !r.equals(&reduced[i]) {
                let ghost before = reduced@;
                reduced.set(i, r);
                proof {
                    assert forall|t: int| 0 <= t < reduced@.len() implies in_vars(#[trigger] reduced@[t]@, n) by {
                        if t != i {
                            assert(reduced@[t] == before[t]);
                        }
                    }
                }
                finished = false;
                changed = true;
            } else {
                proof {
                    let vr = views(reduced@);
                    assert(vr[i as int] == reduced@[i as int]@);
                }
            }
            i = i + 1;
        }
    }
    Some((changed, reduced))
}

/// Inter-reduces the polynomials, drops the zero ones and divides each of
/// the others by its leading coefficient, over and over until nothing
/// changes. `None` when a division gives up.
fn simplify_groebner_basis(polynomials: &[Polynomial], Ghost(n): Ghost<nat>) -> (r: Option<Vec<Polynomial>>)
    requires
        all_in_vars(polynomials@, n),
    ensures
        r matches Some(b) ==> all_in_vars(b@, n) && inter_reduced(views(b@)) && forall|i: int|
            0 <= i < b@.len() ==> #[trigger] b@[i]@ != Map::<Seq<u32>, Q>::empty(),
{
    let mut ps = copy_all(polynomials);
    proof {
        assert forall|i: int| 0 <= i < ps@.len() implies in_vars(#[trigger] ps@[i]@, n) by {
            assert(views(ps@)[i] == views(polynomials@)[i]);
        }
    }
    let mut fuel: u64 = 0;
    loop
        invariant
            all_in_vars(ps@, n),
        decreases u64::MAX - fuel,
    {
        if fuel == u64::MAX {
            return None;
        }
        fuel = fuel + 1;
        let (changed, reduced) = match remainder_reduce_basis(ps.as_slice(), Ghost(n)) {
            Some(x) => x,
            None => {
                return None;
            },
        };
        let len_before = ps.len();
        let nz = remove_zero_polynomials(reduced.as_slice());
        let ghost vr = views(reduced@);
        proof {
            lemma_drop_zero(vr);
            assert(views(nz@).len() == nz@.len());
            assert forall|i: int| 0 <= i < nz@.len() implies in_vars(#[trigger] nz@[i]@, n) && nz@[i]@ != Map::<
                Seq<u32>,
                Q,
            >::empty() by {
                assert(views(nz@)[i] == nz@[i]@);
                assert(vr.contains(nz@[i]@));
                let k = choose|k: int| 0 <= k < vr.len() && vr[k] == nz@[i]@;
                assert(vr[k] == reduced@[k]@);
            }
        }
        let mut monic: Vec<Polynomial> = Vec::new();
        let mut k: usize = 0;
        while k < nz.len()
            invariant
                k <= nz@.len(),
                monic@.len() == k,
                forall|t: int| 0 <= t < nz@.len() ==> in_vars(#[trigger] nz@[t]@, n),
                forall|t: int| 0 <= t < k ==> same_shape(nz@[t]@, #[trigger] monic@[t]@) && in_vars(monic@[t]@, n),
            decreases nz@.len() - k,
        {
            monic.push(make_monic(nz[k].duplicate(), Ghost(n)));
            k = k + 1;
        }
        ps = monic;
        if !changed && ps.len() == len_before {
            proof {
                assert(vr.len() == reduced@.len());
                assert(drop_zero(vr) == vr);
                assert(views(nz@) == vr);
                let vm = views(ps@);
                assert forall|t: int| 0 <= t < vr.len() implies same_shape(#[trigger] vr[t], vm[t]) by {
                    assert(vr[t] == views(nz@)[t]);
                    assert(views(nz@)[t] == nz@[t]@);
                    assert(vm[t] == ps@[t]@);
                }
                lemma_inter_reduced_shape(vr, vm);
                assert forall|i: int| 0 <= i < ps@.len() implies #[trigger] ps@[i]@ != Map::<Seq<u32>, Q>::empty() by {
                    assert(same_shape(nz@[i]@, ps@[i]@));
                    lemma_empty_iff_dom(nz@[i]@, ps@[i]@);
                }
            }
            return Some(ps);
        }
    }
}

/// Some polynomial of `ps` is not zero.
pub open spec fn some_nonzero(ps: Seq<Polynomial>) -> bool {
    exists|i: int| 0 <= i < ps.len() && #[trigger] ps[i]@ != Map::<Seq<u32>, Q>::empty()
}

proof fn lemma_vars_unique(ps: Seq<Polynomial>, n: nat, m: nat)
    requires
        some_nonzero(ps),
        all_in_vars(ps, n),
        all_in_vars(ps, m),
    ensures
        n == m,
{
    let i = choose|i: int| 0 <= i < ps.len() && #[trigger] ps[i]@ != Map::<Seq<u32>, Q>::empty();
    let p = ps[i]@;
    if p.dom() =~= Set::<Seq<u32>>::empty() {
        assert(p =~= Map::<Seq<u32>, Q>::empty());
    }
    let k = p.dom().choose();
    assert(p.contains_key(k));
    assert(in_vars(ps[i]@, n));
    assert(in_vars(ps[i]@, m));
}

/// The S-polynomial of the polynomials at positions `i` and `j` of `b` can
/// be formed within `u32`, and unless one of the two is zero it leaves
/// remainder zero on division by `b`.
pub open spec fn s_pair_reduces(b: Seq<Polynomial>, i: usize, j: usize) -> bool {
    &&& s_poly_fits(b[i as int], b[j as int])
    &&& (b[i as int]@ == Map::<Seq<u32>, Q>::empty() || b[j as int]@ == Map::<Seq<u32>, Q>::empty() || {
        let d = division_iter(s_poly_view(b[i as int], b[j as int]), b, u64::MAX as nat);
        d.0 == 1 && d.2 == Map::<Seq<u32>, Q>::empty()
    })
}

/// Buchberger's criterion: the S-polynomial of every pair of `b` reduces to
/// zero on division by `b`.
pub open spec fn buchberger_closed(b: Seq<Polynomial>) -> bool {
    forall|i: usize, j: usize| i < j < b.len() ==> #[trigger] s_pair_reduces(b, i, j)
}

/// The two lists hold the same polynomials, term list by term list.
pub open spec fn same_polys(a: Seq<Polynomial>, b: Seq<Polynomial>) -> bool {
    &&& a.len() == b.len()
    &&& forall|t: int| 0 <= t < a.len() ==> (#[trigger] a[t]).term_seq() == b[t].term_seq() && a[t]@ == b[t]@
}

proof fn lemma_first_divisor_range(e: Seq<u32>, ds: Seq<Map<Seq<u32>, Q>>, i: nat)
    ensures
        first_divisor(e, ds, i) matches Some(k) ==> i <= k < ds.len(),
    decreases ds.len() - i,
{
    if i < ds.len() {
        lemma_first_divisor_range(e, ds, i + 1);
    }
}

proof fn lemma_division_iter_same(p: Map<Seq<u32>, Q>, d1: Seq<Polynomial>, d2: Seq<Polynomial>, k: nat)
    requires
        same_polys(d1, d2),
    ensures
        division_iter(p, d1, k) == division_iter(p, d2, k),
    decreases k,
{
    assert(views(d1) =~= views(d2));
    if k > 0 {
        lemma_division_iter_same(p, d1, d2, (k - 1) as nat);
        let prev = division_iter(p, d1, (k - 1) as nat);
        if prev.0 == 0 && prev.1 != Map::<Seq<u32>, Q>::empty() {
            let e = leading_exp(prev.1);
            lemma_first_divisor_range(e, views(d1), 0);
            match first_divisor(e, views(d1), 0) {
                Some(i) => {
                    assert(d1[i].term_seq() == d2[i].term_seq() && d1[i]@ == d2[i]@);
                },
                None => {},
            }
        }
    }
}

proof fn lemma_closed_same(a: Seq<Polynomial>, b: Seq<Polynomial>)
    requires
        same_polys(a, b),
        buchberger_closed(a),
    ensures
        buchberger_closed(b),
{
    assert forall|i: usize, j: usize| i < j < b.len() implies #[trigger] s_pair_reduces(b, i, j) by {
        assert(s_pair_reduces(a, i, j));
        assert(a[i as int].term_seq() == b[i as int].term_seq() && a[i as int]@ == b[i as int]@);
        assert(a[j as int].term_seq() == b[j as int].term_seq() && a[j as int]@ == b[j as int]@);
        assert(s_poly_view(a[i as int], a[j as int]) == s_poly_view(b[i as int], b[j as int]));
        lemma_division_iter_same(s_poly_view(b[i as int], b[j as int]), a, b, u64::MAX as nat);
    }
}

/// A Gröbner basis of the ideal that `polynomials` generate, by Buchberger's
/// algorithm: the pairs are taken least degree of the least common multiple
/// of their leading monomials first; the first S-polynomial that leaves a
/// non-zero remainder on division by the basis has it added, the basis
/// simplified and the pairs formed anew. A basis that is returned meets
/// Buchberger's criterion; a list that meets it already comes back as it is.
/// `None` when a division gives up, an exponent would leave the range of
/// `u32`, or `u64::MAX` rounds do not suffice.
pub fn groebner_basis(polynomials: &[Polynomial]) -> (r: Option<Vec<Polynomial>>)
    requires
        exists|n: nat| all_in_vars(polynomials@, n),
    ensures
        forall|n: nat| all_in_vars(polynomials@, n) ==> (r matches Some(b) ==> all_in_vars(b@, n)),
        r matches Some(b) ==> views(b@) == views(polynomials@) || (inter_reduced(views(b@)) && forall|i: int|
            0 <= i < b@.len() ==> #[trigger] b@[i]@ != Map::<Seq<u32>, Q>::empty()),
        r matches Some(b) ==> buchberger_closed(b@),
        buchberger_closed(polynomials@) ==> (r matches Some(b) && same_polys(b@, polynomials@)),
{
    let ghost n = choose|n: nat| all_in_vars(polynomials@, n);
    let ghost closed0 = buchberger_closed(polynomials@);
    let mut basis = copy_all(polynomials);
    proof {
        assert forall|i: int| 0 <= i < basis@.len() implies in_vars(#[trigger] basis@[i]@, n) by {
            assert(views(basis@)[i] == views(polynomials@)[i]);
        }
        if some_nonzero(basis@) {
            let i = choose|i: int| 0 <= i < basis@.len() && #[trigger] basis@[i]@ != Map::<Seq<u32>, Q>::empty();
            assert(views(basis@)[i] == views(polynomials@)[i]);
            assert(polynomials@[i]@ != Map::<Seq<u32>, Q>::empty());
        }
        assert forall|t: int| 0 <= t < basis@.len() implies (#[trigger] basis@[t]).term_seq()
            == polynomials@[t].term_seq() && basis@[t]@ == polynomials@[t]@ by {
            assert(views(basis@)[t] == views(polynomials@)[t]);
        }
    }
    let mut fuel: u64 = 0;
    loop
        invariant
            all_in_vars(polynomials@, n),
            all_in_vars(basis@, n),
            some_nonzero(basis@) ==> some_nonzero(polynomials@),
            views(basis@) == views(polynomials@) || (inter_reduced(views(basis@)) && forall|i: int|
                0 <= i < basis@.len() ==> #[trigger] basis@[i]@ != Map::<Seq<u32>, Q>::empty()),
            closed0 == buchberger_closed(polynomials@),
            closed0 ==> fuel == 0 && same_polys(basis@, polynomials@),
        decreases u64::MAX - fuel,
    {
        if fuel == u64::MAX {
            return None;
        }
        fuel = fuel + 1;
        let mut pairs = generate_pairs(basis.as_slice(), Ghost(n));
        assert(views(basis@).len() == basis@.len());
        proof {
            if closed0 {
                lemma_closed_same(polynomials@, basis@);
            }
        }
        let mut grown = false;
        while pairs.len() > 0 && !grown
            invariant
                all_in_vars(polynomials@, n),
                all_in_vars(basis@, n),
                some_nonzero(basis@) ==> some_nonzero(polynomials@),
                views(basis@) == views(polynomials@) || (inter_reduced(views(basis@)) && forall|i: int|
                    0 <= i < basis@.len() ==> #[trigger] basis@[i]@ != Map::<Seq<u32>, Q>::empty()),
                !grown ==> forall|t: int| 0 <= t < pairs@.len() ==> #[trigger] pairs@[t].0 < pairs@[t].1 < basis@.len(),
                !grown ==> forall|a: usize, b: usize|
                    a < b < basis@.len() ==> pairs@.contains((a, b)) || #[trigger] s_pair_reduces(basis@, a, b),
                closed0 == buchberger_closed(polynomials@),
                closed0 ==> !grown && same_polys(basis@, polynomials@) && buchberger_closed(basis@),
            ensures
                !grown ==> pairs@.len() == 0,
            decreases pairs@.len(),
        {
            let ghost old_pairs = pairs@;
            let (i, j) = match pairs.pop() {
                Some(x) => x,
                None => {
                    break;
                },
            };
            proof {
                assert(old_pairs[old_pairs.len() - 1] == (i, j));
                assert(in_vars(basis@[i as int]@, n));
                assert(in_vars(basis@[j as int]@, n));
                if closed0 {
                    assert(s_pair_reduces(basis@, i, j));
                }
            }
            if !s_pair_fits(&basis[i], &basis[j], Ghost(n)) {
                return None;
            }
            match s_polynomial(&basis[i], &basis[j], Ghost(n)) {
                Some(s) => {
                    let r = match multi_division(&s, basis.as_slice(), Ghost(n)) {
                        Some(r) => r,
                        None => {
                            return None;
                        },
                    };
                    if !r.is_zero() {
                        proof {
                            assert(basis@[i as int]@ != Map::<Seq<u32>, Q>::empty());
                            assert(some_nonzero(basis@));
                        }
                        let ghost before = basis@;
                        basis.push(r);
                        proof {
                            assert forall|t: int| 0 <= t < basis@.len() implies in_vars(#[trigger] basis@[t]@, n) by {
                                if t < before.len() {
                                    assert(basis@[t] == before[t]);
                                }
                            }
                        }
                        basis = match simplify_groebner_basis(basis.as_slice(), Ghost(n)) {
                            Some(b) => b,
                            None => {
                                return None;
                            },
                        };
                        grown = true;
                    } else {
                        proof {
                            assert(s_pair_reduces(basis@, i, j));
                        }
                    }
                },
                None => {
                    proof {
                        assert(s_pair_reduces(basis@, i, j));
                    }
                },
            }
            proof {
                if !grown {
                    assert forall|a: usize, b: usize|
                        a < b < basis@.len() implies pairs@.contains((a, b)) || #[trigger] s_pair_reduces(basis@, a, b) by {
                        if !s_pair_reduces(basis@, a, b) {
                            assert(old_pairs.contains((a, b)));
                            let k = choose|k: int| 0 <= k < old_pairs.len() && old_pairs[k] == (a, b);
                            if k == old_pairs.len() - 1 {
                                assert((a, b) == (i, j));
                            } else {
                                assert(pairs@[k] == old_pairs[k]);
                            }
                        }
                    }
                    assert forall|t: int| 0 <= t < pairs@.len() implies #[trigger] pairs@[t].0 < pairs@[t].1 < basis@.len() by {
                        assert(pairs@[t] == old_pairs[t]);
                    }
                }
            }
        }
        if !grown {
            proof {
                assert forall|m: nat| all_in_vars(polynomials@, m) implies all_in_vars(basis@, m) by {
                    if some_nonzero(polynomials@) {
                        lemma_vars_unique(polynomials@, n, m);
                    } else {
                        assert forall|t: int| 0 <= t < basis@.len() implies in_vars(#[trigger] basis@[t]@, m) by {
                            assert(!(basis@[t]@ != Map::<Seq<u32>, Q>::empty()));
                        }
                    }
                }
                assert forall|a: usize, b: usize| a < b < basis@.len() implies #[trigger] s_pair_reduces(basis@, a, b) by {
                    assert(!pairs@.contains((a, b)));
                }
            }
            return Some(basis);
        }
    }
}

/// Every constraint of `s` is in `n` variables.
pub open spec fn constraints_in_vars(s: Seq<(Polynomial, RelOp)>, n: nat) -> bool {
    forall|i: int| 0 <= i < s.len() ==> in_vars(#[trigger] s[i].0@, n)
}

/// The values of the constraints of `s` whose comparison is `=`, in order.
pub open spec fn eq_views(s: Seq<(Polynomial, RelOp)>) -> Seq<Map<Seq<u32>, Q>>
    decreases s.len(),
{
    if s.len() == 0 {
        Seq::empty()
    } else if s.last().1 == RelOp::Eq {
        eq_views(s.drop_last()).push(s.last().0@)
    } else {
        eq_views(s.drop_last())
    }
}

/// The polynomials of the constraints of `s` whose comparison is `=`, in
/// order.
pub open spec fn eq_polys(s: Seq<(Polynomial, RelOp)>) -> Seq<Polynomial>
    decreases s.len(),
{
    if s.len() == 0 {
        Seq::empty()
    } else if s.last().1 == RelOp::Eq {
        eq_polys(s.drop_last()).push(s.last().0)
    } else {
        eq_polys(s.drop_last())
    }
}

/// The values and comparisons of the other constraints of `s`, in order.
pub open spec fn other_views(s: Seq<(Polynomial, RelOp)>) -> Seq<(Map<Seq<u32>, Q>, RelOp)>
    decreases s.len(),
{
    if s.len() == 0 {
        Seq::empty()
    } else if s.last().1 == RelOp::Eq {
        other_views(s.drop_last())
    } else {
        other_views(s.drop_last()).push((s.last().0@, s.last().1))
    }
}

/// The values and comparisons of the constraints.
pub open spec fn constraint_views(s: Seq<(Polynomial, RelOp)>) -> Seq<(Map<Seq<u32>, Q>, RelOp)> {
    s.map_values(|x: (Polynomial, RelOp)| (x.0@, x.1))
}

/// The equations of `polynomials` replaced by a Gröbner basis of the ideal
/// they generate (as equations, `groebner_basis`), which meets Buchberger's
/// criterion, followed by the other constraints as they were. `None` when the
/// basis computation gives up, which it does not when the equations meet the
/// criterion already.
pub fn groebner_basis_for_equalities(polynomials: &[(Polynomial, RelOp)]) -> (r: Option<Vec<(Polynomial, RelOp)>>)
    requires
        exists|n: nat| constraints_in_vars(polynomials@, n),
    ensures
        r matches Some(v) ==> {
            let k = v@.len() - other_views(polynomials@).len();
            let basis = v@.subrange(0, k).map_values(|x: (Polynomial, RelOp)| x.0);
            &&& 0 <= k
            &&& constraint_views(v@).subrange(k, v@.len() as int) == other_views(polynomials@)
            &&& forall|t: int| 0 <= t < k ==> (#[trigger] v@[t]).1 == RelOp::Eq
            &&& forall|n: nat| constraints_in_vars(polynomials@, n) ==> constraints_in_vars(v@, n)
            &&& (views(basis) == eq_views(polynomials@) || (inter_reduced(views(basis)) && forall|i: int|
                0 <= i < basis.len() ==> #[trigger] basis[i]@ != Map::<Seq<u32>, Q>::empty()))
            &&& buchberger_closed(basis)
        },
        buchberger_closed(eq_polys(polynomials@)) ==> r is Some,
{
    let ghost n0 = choose|n: nat| constraints_in_vars(polynomials@, n);
    let mut eqs: Vec<Polynomial> = Vec::new();
    let mut others: Vec<(Polynomial, RelOp)> = Vec::new();
    let mut i: usize = 0;
    while i < polynomials.len()
        invariant
            i <= polynomials@.len(),
            views(eqs@) == eq_views(polynomials@.subrange(0, i as int)),
            same_polys(eq_polys(polynomials@.subrange(0, i as int)), eqs@),
            constraint_views(others@) == other_views(polynomials@.subrange(0, i as int)),
            forall|n: nat| constraints_in_vars(polynomials@, n) ==> all_in_vars(eqs@, n) && constraints_in_vars(others@, n),
        decreases polynomials@.len() - i,
    {
        let ghost pre = polynomials@.subrange(0, i as int);
        let ghost cur = polynomials@.subrange(0, i + 1);
        assert(cur.drop_last() =~= pre);
        assert(cur.last() == polynomials@[i as int]);
        let p = polynomials[i].0.duplicate();
        let op = polynomials[i].1;
        if op == RelOp::Eq {
            let ghost before = eqs@;
            eqs.push(p);
            proof {
                assert(views(eqs@) =~= views(before).push(polynomials@[i as int].0@));
                assert(eq_polys(cur) == eq_polys(pre).push(polynomials@[i as int].0));
                assert forall|t: int| 0 <= t < eqs@.len() implies (#[trigger] eq_polys(cur)[t]).term_seq()
                    == eqs@[t].term_seq() && eq_polys(cur)[t]@ == eqs@[t]@ by {
                    if t < before.len() {
                        assert(eqs@[t] == before[t]);
                        assert(eq_polys(cur)[t] == eq_polys(pre)[t]);
                    }
                }
                assert forall|n: nat| constraints_in_vars(polynomials@, n) implies all_in_vars(eqs@, n) by {
                    assert forall|t: int| 0 <= t < eqs@.len() implies in_vars(#[trigger] eqs@[t]@, n) by {
                        if t < before.len() {
                            assert(eqs@[t] == before[t]);
                        } else {
                            assert(in_vars(polynomials@[i as int].0@, n));
                        }
                    }
                }
            }
        } else {
            let ghost before = others@;
            others.push((p, op));
            proof {
                assert(constraint_views(others@) =~= constraint_views(before).push((polynomials@[i as int].0@, op)));
                assert forall|n: nat| constraints_in_vars(polynomials@, n) implies constraints_in_vars(others@, n) by {
                    assert forall|t: int| 0 <= t < others@.len() implies in_vars(#[trigger] others@[t].0@, n) by {
                        if t < before.len() {
                            assert(others@[t] == before[t]);
                        } else {
                            assert(in_vars(polynomials@[i as int].0@, n));
                        }
                    }
                }
            }
        }
        i = i + 1;
    }
    proof {
        assert(polynomials@.subrange(0, polynomials@.len() as int) =~= polynomials@);
        assert(all_in_vars(eqs@, n0));
        if buchberger_closed(eq_polys(polynomials@)) {
            lemma_closed_same(eq_polys(polynomials@), eqs@);
        }
    }
    let basis = match groebner_basis(eqs.as_slice()) {
        Some(b) => b,
        None => {
            return None;
        },
    };
    let mut out: Vec<(Polynomial, RelOp)> = Vec::new();
    let mut t: usize = 0;
    while t < basis.len()
        invariant
            t <= basis@.len(),
            out@.len() == t,
            forall|s: int| 0 <= s < t ==> (#[trigger] out@[s]).1 == RelOp::Eq && out@[s].0@ == basis@[s]@,
            forall|s: int| 0 <= s < t ==> (#[trigger] out@[s]).0.term_seq() == basis@[s].term_seq(),
        decreases basis@.len() - t,
    {
        out.push((basis[t].duplicate(), RelOp::Eq));
        t = t + 1;
    }
    let k = out.len();
    let ghost ov = other_views(polynomials@);
    let mut t: usize = 0;
    while t < others.len()
        invariant
            t <= others@.len(),
            k == basis@.len(),
            out@.len() == k + t,
            constraint_views(others@) == ov,
            forall|s: int| 0 <= s < k ==> (#[trigger] out@[s]).1 == RelOp::Eq && out@[s].0@ == basis@[s]@,
            forall|s: int| 0 <= s < k ==> (#[trigger] out@[s]).0.term_seq() == basis@[s].term_seq(),
            forall|s: int| 0 <= s < t ==> constraint_views(out@)[k + s] == #[trigger] ov[s],
        decreases others@.len() - t,
    {
        let ghost before = out@;
        out.push((others[t].0.duplicate(), others[t].1));
        proof {
            assert(constraint_views(others@)[t as int] == (others@[t as int].0@, others@[t as int].1));
            assert forall|s: int| 0 <= s < k implies (#[trigger] out@[s]).1 == RelOp::Eq && out@[s].0@ == basis@[s]@
                && out@[s].0.term_seq() == basis@[s].term_seq() by {
                assert(out@[s] == before[s]);
            }
            assert forall|s: int| 0 <= s < t + 1 implies constraint_views(out@)[k + s] == #[trigger] ov[s] by {
                if s < t {
                    assert(out@[k + s] == before[k + s]);
                    assert(constraint_views(before)[k + s] == ov[s]);
                }
            }
        }
        t = t + 1;
    }
    proof {
        assert(constraint_views(others@).len() == others@.len());
        let bs = out@.subrange(0, k as int).map_values(|x: (Polynomial, RelOp)| x.0);
        assert(views(bs) =~= views(basis@)) by {
            assert forall|s: int| 0 <= s < k implies #[trigger] views(bs)[s] == views(basis@)[s] by {
                assert(bs[s] == out@[s].0);
            }
        }
        assert(constraint_views(out@).subrange(k as int, out@.len() as int) =~= ov);
        assert forall|n: nat| constraints_in_vars(polynomials@, n) implies constraints_in_vars(out@, n) by {
            assert(all_in_vars(eqs@, n));
            assert(all_in_vars(basis@, n));
            assert(constraints_in_vars(others@, n));
            assert forall|s: int| 0 <= s < out@.len() implies in_vars(#[trigger] out@[s].0@, n) by {
                if s < k {
                    assert(in_vars(basis@[s]@, n));
                } else {
                    let q = s - k;
                    assert(constraint_views(out@)[k + q] == ov[q]);
                    assert(constraint_views(others@)[q] == ov[q]);
                    assert(in_vars(others@[q].0@, n));
                }
            }
        }
        assert forall|s: int| 0 <= s < bs.len() implies #[trigger] bs[s]@ == basis@[s]@ by {
            assert(bs[s] == out@[s].0);
        }
        assert forall|s: int| 0 <= s < basis@.len() implies (#[trigger] basis@[s]).term_seq() == bs[s].term_seq()
            && basis@[s]@ == bs[s]@ by {
            assert(bs[s] == out@[s].0);
        }
        lemma_closed_same(basis@, bs);
    }
    Some(out)
}

} // verus!
