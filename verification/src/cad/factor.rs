//! A polynomial in a single one of several variables as a polynomial in one
//! variable, and factors in one variable back as polynomials in several.
use crate::cad::univariate::{clean_seq, lemma_clean_seq, UnivariatePolynomial};
use crate::nonempty::{rat_values, rat_vec1_from_vec};
use crate::number::{qcanon, qint, Q, Rat};
use crate::polynomial::{
    distinct_keys, lemma_seq_to_map, nonzero_values, seq_to_map, term_view, terms_view, zero_exp, zeros, Exponent,
    Polynomial,
};
use vstd::prelude::*;

verus! {

/// Some term of `ts` has a positive exponent at variable `i`.
pub open spec fn uses_var(ts: Seq<(Seq<u32>, Q)>, i: int) -> bool {
    exists|t: int| 0 <= t < ts.len() && 0 <= i < ts[t].0.len() && #[trigger] ts[t].0[i] > 0
}

/// No variable but `v` has a positive exponent in a term of `ts`.
pub open spec fn at_most_var(ts: Seq<(Seq<u32>, Q)>, v: int) -> bool {
    forall|t: int, i: int| 0 <= t < ts.len() && 0 <= i < ts[t].0.len() && #[trigger] ts[t].0[i] > 0 ==> i == v
}

/// Variable `v` is the one variable with a positive exponent in `ts`.
pub open spec fn only_var(ts: Seq<(Seq<u32>, Q)>, v: int) -> bool {
    uses_var(ts, v) && at_most_var(ts, v)
}

/// `s` lengthened with zeros to reach position `k`, with `c` put there.
pub open spec fn put_coeff(s: Seq<Q>, k: nat, c: Q) -> Seq<Q> {
    let ext = if s.len() > k {
        s
    } else {
        s + Seq::new((k + 1 - s.len()) as nat, |i: int| qint(0))
    };
    ext.update(k as int, c)
}

/// The coefficients of the powers of variable `v`: each term whose exponent
/// list reaches `v` puts its coefficient at its power of `v`, a later term
/// over an earlier one.
pub open spec fn var_coeffs(ts: Seq<(Seq<u32>, Q)>, v: nat) -> Seq<Q>
    decreases ts.len(),
{
    if ts.len() == 0 {
        Seq::empty()
    } else {
        let prev = var_coeffs(ts.drop_last(), v);
        let e = ts.last().0;
        if v < e.len() {
            put_coeff(prev, e[v as int] as nat, ts.last().1)
        } else {
            prev
        }
    }
}

proof fn lemma_var_coeffs_len(ts: Seq<(Seq<u32>, Q)>, v: nat, t: int)
    requires
        0 <= t < ts.len(),
        v < ts[t].0.len(),
    ensures
        var_coeffs(ts, v).len() >= 1,
    decreases ts.len(),
{
    if t < ts.len() - 1 {
        assert(ts.drop_last()[t] == ts[t]);
        lemma_var_coeffs_len(ts.drop_last(), v, t);
    }
}

proof fn lemma_two_vars(ts: Seq<(Seq<u32>, Q)>, a: int, b: int, ta: int, tb: int)
    requires
        a != b,
        0 <= ta < ts.len(),
        0 <= a < ts[ta].0.len(),
        ts[ta].0[a] > 0,
        0 <= tb < ts.len(),
        0 <= b < ts[tb].0.len(),
        ts[tb].0[b] > 0,
    ensures
        forall|w: int| !(#[trigger] only_var(ts, w)),
{
    assert forall|w: int| !(#[trigger] only_var(ts, w)) by {
        if only_var(ts, w) {
            assert(at_most_var(ts, w));
            assert(ts[ta].0[a] > 0);
            assert(ts[tb].0[b] > 0);
        }
    }
}

/// The variable that `poly` is a polynomial in, and its coefficients as a
/// polynomial in that variable (trailing zeros removed). `None` when no
/// variable, or more than one, has a positive exponent.
pub fn univariate_of(poly: &Polynomial) -> (r: Option<(usize, UnivariatePolynomial)>)
    ensures
        r is None <==> !exists|v: int| #[trigger] only_var(poly.term_seq(), v),
        r matches Some((v, u)) ==> only_var(poly.term_seq(), v as int) && u@ == clean_seq(
            var_coeffs(poly.term_seq(), v as nat),
        ),
{
    let terms = poly.raw_iter();
    let ghost ts = poly.term_seq();
    let mut var: Option<usize> = None;
    let mut t: usize = 0;
    while t < terms.len()
        invariant
            terms_view(terms@) == ts,
            ts == poly.term_seq(),
            t <= ts.len(),
            var is None ==> forall|t2: int, i: int|
                0 <= t2 < t && 0 <= i < ts[t2].0.len() ==> !(#[trigger] ts[t2].0[i] > 0),
            var matches Some(v) ==> uses_var(ts, v as int) && forall|t2: int, i: int|
                0 <= t2 < t && 0 <= i < ts[t2].0.len() && #[trigger] ts[t2].0[i] > 0 ==> i == v,
        decreases ts.len() - t,
    {
        assert(ts[t as int] == term_view(terms@[t as int]));
        let e = terms[t].0.as_slice();
        let mut j: usize = 0;
        while j < e.len()
            invariant
                terms_view(terms@) == ts,
                ts == poly.term_seq(),
                t < ts.len(),
                e@ == ts[t as int].0,
                j <= e@.len(),
                var is None ==> forall|t2: int, i: int|
                    (0 <= t2 < t && 0 <= i < ts[t2].0.len()) || (t2 == t && 0 <= i < j) ==> !(#[trigger] ts[t2].0[i]
                        > 0),
                var matches Some(v) ==> uses_var(ts, v as int) && forall|t2: int, i: int|
                    ((0 <= t2 < t && 0 <= i < ts[t2].0.len()) || (t2 == t && 0 <= i < j)) && #[trigger] ts[t2].0[i] > 0
                        ==> i == v,
            decreases e@.len() - j,
        {
            if e[j] > 0 {
                assert(ts[t as int].0[j as int] > 0);
                match var {
                    None => {
                        var = Some(j);
                    },
                    Some(v) => {
                        if v != j {
                            proof {
                                assert(uses_var(ts, v as int));
                                let t3 = choose|t3: int|
                                    0 <= t3 < ts.len() && 0 <= v < ts[t3].0.len() && #[trigger] ts[t3].0[v as int] > 0;
                                lemma_two_vars(ts, v as int, j as int, t3, t as int);
                            }
                            return None;
                        }
                    },
                }
            }
            j = j + 1;
        }
        t = t + 1;
    }
    let v = match var {
        None => {
            proof {
                assert forall|w: int| !(#[trigger] only_var(ts, w)) by {
                    if only_var(ts, w) {
                        let t3 = choose|t3: int| 0 <= t3 < ts.len() && 0 <= w < ts[t3].0.len() && #[trigger] ts[t3].0[w] > 0;
                    }
                }
            }
            return None;
        },
        Some(v) => v,
    };
    let ghost tw = choose|t3: int| 0 <= t3 < ts.len() && 0 <= v < ts[t3].0.len() && #[trigger] ts[t3].0[v as int] > 0;
    let mut coeffs: Vec<Rat> = Vec::new();
    let mut t: usize = 0;
    assert(ts.subrange(0, 0) =~= Seq::<(Seq<u32>, Q)>::empty());
    while t < terms.len()
        invariant
            terms_view(terms@) == ts,
            t <= ts.len(),
            rat_values(coeffs@) == var_coeffs(ts.subrange(0, t as int), v as nat),
        decreases ts.len() - t,
    {
        assert(ts[t as int] == term_view(terms@[t as int]));
        assert(ts.subrange(0, t + 1).drop_last() =~= ts.subrange(0, t as int));
        assert(ts.subrange(0, t + 1).last() == ts[t as int]);
        let e = terms[t].0.as_slice();
        if v < e.len() {
            let k = e[v] as usize;
            let ghost before = rat_values(coeffs@);
            while coeffs.len() <= k
                invariant
                    rat_values(coeffs@).len() == coeffs@.len(),
                    before.len() <= coeffs@.len(),
                    before.len() > k ==> coeffs@.len() == before.len(),
                    coeffs@.len() <= k + 1 || coeffs@.len() == before.len(),
                    forall|i: int| 0 <= i < before.len() ==> #[trigger] rat_values(coeffs@)[i] == before[i],
                    forall|i: int| before.len() <= i < coeffs@.len() ==> #[trigger] rat_values(coeffs@)[i] == qint(0),
                decreases k + 1 - coeffs@.len(),
            {
                let ghost prev = coeffs@;
                coeffs.push(Rat::from_i64(0));
                proof {
                    assert(rat_values(coeffs@) =~= rat_values(prev).push(qint(0)));
                }
            }
            let ghost ext = if before.len() > k {
                before
            } else {
                before + Seq::new((k + 1 - before.len()) as nat, |i: int| qint(0))
            };
            assert(rat_values(coeffs@) =~= ext);
            let ghost filled = coeffs@;
            let c = terms[t].1.duplicate();
            coeffs.set(k, c);
            proof {
                assert(rat_values(coeffs@) =~= rat_values(filled).update(k as int, ts[t as int].1));
            }
        }
        t = t + 1;
    }
    proof {
        assert(ts.subrange(0, ts.len() as int) =~= ts);
        lemma_var_coeffs_len(ts, v as nat, tw);
        assert(only_var(ts, v as int));
    }
    let cs = rat_vec1_from_vec(coeffs).unwrap();
    Some((v, UnivariatePolynomial::new(cs)))
}

/// The exponent vector of `x_v^k` among `total` variables.
pub open spec fn power_exp(v: nat, total: nat, k: nat) -> Seq<u32> {
    zero_exp(total).update(v as int, k as u32)
}

/// The polynomial in `total` variables whose coefficient of `x_v^k` is
/// `c[k]`, with the zero coefficients left out.
pub open spec fn lifted(c: Seq<Q>, v: nat, total: nat) -> Map<Seq<u32>, Q> {
    lifted_upto(c, v, total, c.len())
}

/// `lifted` of the first `k` coefficients.
pub open spec fn lifted_upto(c: Seq<Q>, v: nat, total: nat, k: nat) -> Map<Seq<u32>, Q> {
    Map::new(
        |e: Seq<u32>|
            exists|i: nat| i < k && i < c.len() && c[i as int].n != 0 && e == #[trigger] power_exp(v, total, i),
        |e: Seq<u32>| c[e[v as int] as int],
    )
}

proof fn lemma_power_exp(v: nat, total: nat, i: nat, j: nat)
    requires
        v < total,
        i <= u32::MAX,
        j <= u32::MAX,
        power_exp(v, total, i) == power_exp(v, total, j),
    ensures
        i == j,
{
    assert(power_exp(v, total, i)[v as int] == i as u32);
    assert(power_exp(v, total, j)[v as int] == j as u32);
}

/// The factor with coefficients `c` of the powers of `x_v` as a polynomial
/// in `total` variables.
fn lift_factor(c: &[Rat], v: usize, total: usize) -> (r: Polynomial)
    requires
        v < total,
        c@.len() <= u32::MAX + 1,
    ensures
        r@ == lifted(rat_values(c@), v as nat, total as nat),
{
    let ghost cs = rat_values(c@);
    let mut p = Polynomial::zero();
    assert(p@ =~= lifted_upto(cs, v as nat, total as nat, 0));
    let mut i: usize = 0;
    while i < c.len()
        invariant
            v < total,
            c@.len() <= u32::MAX + 1,
            cs == rat_values(c@),
            i <= c@.len(),
            p@ == lifted_upto(cs, v as nat, total as nat, i as nat),
        decreases c@.len() - i,
    {
        let mut ex = zeros(total);
        ex.set(v, i as u32);
        let key = Exponent::new(ex);
        assert(key@ == power_exp(v as nat, total as nat, i as nat));
        let ghost before = p@;
        let coeff = c[i].duplicate();
        assert(coeff@ == cs[i as int]);
        p.add_term(key, coeff);
        proof {
            let k = power_exp(v as nat, total as nat, i as nat);
            assert(!before.contains_key(k)) by {
                if before.contains_key(k) {
                    let i2 = choose|i2: nat|
                        i2 < i && i2 < cs.len() && cs[i2 as int].n != 0 && k == #[trigger] power_exp(
                            v as nat,
                            total as nat,
                            i2,
                        );
                    lemma_power_exp(v as nat, total as nat, i as nat, i2);
                }
            }
            let after = lifted_upto(cs, v as nat, total as nat, (i + 1) as nat);
            assert forall|e: Seq<u32>| #[trigger] p@.contains_key(e) == after.contains_key(e) by {
                if e == k {
                    if cs[i as int].n != 0 {
                        assert(after.contains_key(e));
                    } else {
                        if after.contains_key(e) {
                            let i2 = choose|i2: nat|
                                i2 < i + 1 && i2 < cs.len() && cs[i2 as int].n != 0 && e == #[trigger] power_exp(
                                    v as nat,
                                    total as nat,
                                    i2,
                                );
                            lemma_power_exp(v as nat, total as nat, i as nat, i2);
                        }
                    }
                } else {
                    if after.contains_key(e) {
                        let i2 = choose|i2: nat|
                            i2 < i + 1 && i2 < cs.len() && cs[i2 as int].n != 0 && e == #[trigger] power_exp(
                                v as nat,
                                total as nat,
                                i2,
                            );
                        assert(i2 != i);
                        assert(before.contains_key(e));
                    }
                }
            }
            assert forall|e: Seq<u32>| #[trigger] p@.contains_key(e) implies p@[e] == after[e] by {
                if e == k {
                    assert(k[v as int] == i as u32);
                } else {
                    assert(before.contains_key(e));
                }
            }
            assert(p@ =~= after);
        }
        i = i + 1;
    }
    assert(p@ == lifted(cs, v as nat, total as nat));
    p
}

/// Each factor, given by its coefficients of the powers of `x_v`, as a
/// polynomial in `total` variables.
pub fn factors_to_polynomials(v: usize, total: usize, factors: &[UnivariatePolynomial]) -> (r: Vec<Polynomial>)
    requires
        v < total,
        forall|k: int| 0 <= k < factors@.len() ==> (#[trigger] factors@[k])@.len() <= u32::MAX + 1,
    ensures
        r@.len() == factors@.len(),
        forall|k: int| 0 <= k < factors@.len() ==> (#[trigger] r@[k])@ == lifted(factors@[k]@, v as nat, total as nat),
{
    let mut out: Vec<Polynomial> = Vec::new();
    let mut k: usize = 0;
    while k < factors.len()
        invariant
            v < total,
            forall|j: int| 0 <= j < factors@.len() ==> (#[trigger] factors@[j])@.len() <= u32::MAX + 1,
            k <= factors@.len(),
            out@.len() == k,
            forall|j: int| 0 <= j < k ==> (#[trigger] out@[j])@ == lifted(factors@[j]@, v as nat, total as nat),
        decreases factors@.len() - k,
    {
        let cs = factors[k].iter();
        assert(factors@[k as int]@.len() <= u32::MAX + 1);
        let p = lift_factor(cs, v, total);
        out.push(p);
        k = k + 1;
    }
    out
}

/// Every exponent list of `ts` has `total` entries, all zero but the one at
/// `v`.
pub open spec fn in_one_var(ts: Seq<(Seq<u32>, Q)>, v: nat, total: nat) -> bool {
    forall|t: int|
        0 <= t < ts.len() ==> (#[trigger] ts[t]).0.len() == total && forall|j: int|
            0 <= j < total && j != v ==> ts[t].0[j] == 0
}

proof fn lemma_clean_tail(s: Seq<Q>)
    ensures
        forall|i: int| clean_seq(s).len() <= i < s.len() ==> (#[trigger] s[i]).n == 0,
    decreases s.len(),
{
    lemma_clean_seq(s);
    if s.len() > 1 && s.last().n == 0 {
        lemma_clean_tail(s.drop_last());
        lemma_clean_seq(s.drop_last());
        assert forall|i: int| clean_seq(s).len() <= i < s.len() implies (#[trigger] s[i]).n == 0 by {
            if i < s.len() - 1 {
                assert(s.drop_last()[i] == s[i]);
            }
        }
    }
}

proof fn lemma_lifted_clean(c: Seq<Q>, v: nat, total: nat)
    requires
        v < total,
        c.len() <= u32::MAX + 1,
    ensures
        lifted(clean_seq(c), v, total) == lifted(c, v, total),
{
    lemma_clean_seq(c);
    lemma_clean_tail(c);
    let d = clean_seq(c);
    assert forall|e: Seq<u32>| #[trigger] lifted(d, v, total).contains_key(e) == lifted(c, v, total).contains_key(e) by {
        if lifted(c, v, total).contains_key(e) {
            let i = choose|i: nat| i < c.len() && i < c.len() && c[i as int].n != 0 && e == #[trigger] power_exp(v, total, i);
            assert(i < d.len());
            assert(d[i as int] == c[i as int]);
            assert(lifted_upto(d, v, total, d.len()).contains_key(e));
        }
        if lifted(d, v, total).contains_key(e) {
            let i = choose|i: nat| i < d.len() && i < d.len() && d[i as int].n != 0 && e == #[trigger] power_exp(v, total, i);
            assert(d[i as int] == c[i as int]);
            assert(lifted_upto(c, v, total, c.len()).contains_key(e));
        }
    }
    assert forall|e: Seq<u32>| #[trigger] lifted(d, v, total).contains_key(e) implies lifted(d, v, total)[e] == lifted(
        c,
        v,
        total,
    )[e] by {
        let i = choose|i: nat| i < d.len() && i < d.len() && d[i as int].n != 0 && e == #[trigger] power_exp(v, total, i);
        assert(e[v as int] == i as u32);
    }
    assert(lifted(d, v, total) =~= lifted(c, v, total));
}

proof fn lemma_lifted_put(c: Seq<Q>, v: nat, total: nat, k: nat, x: Q)
    requires
        v < total,
        c.len() <= u32::MAX + 1,
        k <= u32::MAX,
        x.n != 0,
        k < c.len() ==> c[k as int].n == 0,
    ensures
        lifted(put_coeff(c, k, x), v, total) == lifted(c, v, total).insert(power_exp(v, total, k), x),
{
    let p = put_coeff(c, k, x);
    let key = power_exp(v, total, k);
    let lhs = lifted(p, v, total);
    let rhs = lifted(c, v, total).insert(key, x);
    assert(p.len() <= u32::MAX + 1);
    assert forall|i: int| 0 <= i < p.len() && i != k implies #[trigger] p[i] == (if i < c.len() {
        c[i]
    } else {
        qint(0)
    }) by {}
    assert forall|e: Seq<u32>| #[trigger] lhs.contains_key(e) == rhs.contains_key(e) by {
        if lhs.contains_key(e) {
            let i = choose|i: nat| i < p.len() && i < p.len() && p[i as int].n != 0 && e == #[trigger] power_exp(v, total, i);
            if i != k {
                assert(i < c.len());
                assert(lifted_upto(c, v, total, c.len()).contains_key(e));
            }
        }
        if rhs.contains_key(e) {
            if e == key {
                assert(p[k as int] == x);
                assert(lifted_upto(p, v, total, p.len()).contains_key(e));
            } else {
                let i = choose|i: nat| i < c.len() && i < c.len() && c[i as int].n != 0 && e == #[trigger] power_exp(v, total, i);
                assert(i != k);
                assert(p[i as int] == c[i as int]);
                assert(lifted_upto(p, v, total, p.len()).contains_key(e));
            }
        }
    }
    assert forall|e: Seq<u32>| #[trigger] lhs.contains_key(e) implies lhs[e] == rhs[e] by {
        let i = choose|i: nat| i < p.len() && i < p.len() && p[i as int].n != 0 && e == #[trigger] power_exp(v, total, i);
        assert(e[v as int] == i as u32);
        if i == k {
            assert(e == key);
        } else {
            if e == key {
                lemma_power_exp(v, total, i, k);
            }
            assert(i < c.len());
            assert(rhs[e] == lifted(c, v, total)[e]);
        }
    }
    assert(lhs =~= rhs);
}

proof fn lemma_lift_prefix(ts: Seq<(Seq<u32>, Q)>, v: nat, total: nat)
    requires
        v < total,
        distinct_keys(ts),
        nonzero_values(ts),
        in_one_var(ts, v, total),
    ensures
        lifted(var_coeffs(ts, v), v, total) == seq_to_map(ts),
        var_coeffs(ts, v).len() <= u32::MAX + 1,
    decreases ts.len(),
{
    if ts.len() == 0 {
        assert(lifted(Seq::<Q>::empty(), v, total) =~= Map::<Seq<u32>, Q>::empty());
    } else {
        let pre = ts.drop_last();
        assert forall|a: int, b: int| 0 <= a < b < pre.len() implies pre[a].0 != pre[b].0 by {
            assert(pre[a] == ts[a]);
            assert(pre[b] == ts[b]);
        }
        assert forall|a: int| 0 <= a < pre.len() implies (#[trigger] pre[a]).1.n != 0 && qcanon(pre[a].1) by {
            assert(pre[a] == ts[a]);
        }
        assert forall|a: int| 0 <= a < pre.len() implies (#[trigger] pre[a]).0.len() == total && forall|j: int|
            0 <= j < total && j != v ==> pre[a].0[j] == 0 by {
            assert(pre[a] == ts[a]);
        }
        lemma_lift_prefix(pre, v, total);
        let (e, x) = ts.last();
        assert(ts.last() == ts[ts.len() - 1]);
        let k = e[v as int] as nat;
        assert(e =~= power_exp(v, total, k));
        let c = var_coeffs(pre, v);
        assert(x.n != 0);
        if k < c.len() && c[k as int].n != 0 {
            assert(lifted_upto(c, v, total, c.len()).contains_key(e));
            lemma_seq_to_map(pre);
            let a = choose|a: int| 0 <= a < pre.len() && pre[a].0 == e;
            assert(pre[a] == ts[a]);
        }
        lemma_lifted_put(c, v, total, k, x);
    }
}

/// A polynomial in `x_v` alone, among `total` variables, is the lift of the
/// coefficients that `univariate_of` reads from it: `factors_to_polynomials`
/// on them gives the polynomial back.
pub proof fn lemma_lift_coefficients(p: Polynomial, v: nat, total: nat)
    requires
        v < total,
        p.well_formed(),
        in_one_var(p.term_seq(), v, total),
    ensures
        lifted(clean_seq(var_coeffs(p.term_seq(), v)), v, total) == p@,
{
    lemma_lift_prefix(p.term_seq(), v, total);
    lemma_lifted_clean(var_coeffs(p.term_seq(), v), v, total);
}

} // verus!
