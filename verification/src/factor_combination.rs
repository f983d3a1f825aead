//! Recombining factors found modulo a prime power into factors over the
//! integers.
use crate::big_int_poly::{
    coef, divides_with, lemma_division_identity, lemma_product_coefs, lemma_product_congruent, lemma_product_constant,
    lemma_product_monic, lemma_remainder_of_multiple, poly_divides, poly_product, product_coef, BigIntPoly,
    uni_poly_division, uni_poly_remainder,
};
use crate::modpoly::{clean_ints, lemma_clean_ints};
use crate::nonempty::{poly_vec1_from_vec, poly_vec1_into_vec, poly_vec1_views, poly_views};
use crate::number::{iabs, tdiv, trem, Int};
use crate::polyfactor::int_values;
use itertools::Itertools;
use vec1::Vec1;
use vstd::prelude::*;

verus! {

/// The remainder of `x` by `m`, moved into `-m/2 ..= m/2`.
pub open spec fn centered(x: int, m: int) -> int {
    let r = trem(x, m);
    let half = tdiv(m, 2);
    if r > half {
        r - m
    } else if r < -half {
        r + m
    } else {
        r
    }
}

/// The remainder of `x` by `m`, moved into `-m/2 ..= m/2`.
fn center(x: &Int, m: &Int) -> (r: Int)
    requires
        m@ != 0,
    ensures
        r@ == centered(x@, m@),
{
    let r = x.rem_trunc(m);
    let half = m.div_trunc(&Int::from_i64(2));
    if half.lt(&r) {
        r.sub(m)
    } else if r.lt(&half.neg()) {
        r.add(m)
    } else {
        r
    }
}

/// Every coefficient moved into `-m/2 ..= m/2` modulo `m`, trailing zeros
/// removed.
pub fn center_coefficients(f: &BigIntPoly, m: &Int) -> (r: BigIntPoly)
    requires
        m@ != 0,
    ensures
        r@ == clean_ints(f@.map_values(|c: int| centered(c, m@))),
{
    let s = f.iter();
    let mut v: Vec<Int> = Vec::new();
    let mut i: usize = 0;
    while i < s.len()
        invariant
            int_values(s@) == f@,
            m@ != 0,
            i <= s@.len(),
            int_values(v@) == f@.map_values(|c: int| centered(c, m@)).subrange(0, i as int),
        decreases s@.len() - i,
    {
        assert(f@[i as int] == s@[i as int]@);
        let x = center(&s[i], m);
        let ghost prev = v@;
        v.push(x);
        proof {
            assert(int_values(v@) =~= int_values(prev).push(centered(f@[i as int], m@)));
            assert(int_values(v@) =~= f@.map_values(|c: int| centered(c, m@)).subrange(0, i + 1));
        }
        i = i + 1;
    }
    assert(f@.map_values(|c: int| centered(c, m@)).subrange(0, s@.len() as int) =~= f@.map_values(
        |c: int| centered(c, m@),
    ));
    let t = crate::nonempty::int_vec1_from_vec(v).unwrap();
    BigIntPoly::new(t)
}

/// The list of `k`-element selections of positions `0..n` that `itertools`
/// produces.
pub uninterp spec fn range_combinations(n: usize, k: usize) -> Seq<Seq<usize>>;

/// The values of a list of index vectors.
pub open spec fn index_lists(v: Seq<Vec<usize>>) -> Seq<Seq<usize>> {
    v.map_values(|x: Vec<usize>| x@)
}

/// `c` lists `k` positions below `n` in increasing order.
pub open spec fn is_selection(c: Seq<usize>, n: nat, k: nat) -> bool {
    &&& c.len() == k
    &&& forall|t: int| 0 <= t < k ==> #[trigger] c[t] < n
    &&& forall|t: int, u: int| 0 <= t < u < k ==> #[trigger] c[t] < #[trigger] c[u]
}

/// Wraps `Itertools::combinations` on `0..n`: every selection of `k`
/// positions, each in increasing order, once. The order in which they come is
/// named and not stated.
#[verifier::external_body]
fn combinations_of_range(n: usize, k: usize) -> (r: Vec<Vec<usize>>)
    ensures
        index_lists(r@) == range_combinations(n, k),
        forall|t: int| 0 <= t < r@.len() ==> is_selection(#[trigger] index_lists(r@)[t], n as nat, k as nat),
        forall|c: Seq<usize>| is_selection(c, n as nat, k as nat) ==> #[trigger] index_lists(r@).contains(c),
        index_lists(r@).no_duplicates(),
{
    (0..n).combinations(k).collect()
}

/// The product of the factors at the selected positions, each coefficient
/// moved into `-m/2 ..= m/2` modulo `m`, trailing zeros removed.
pub open spec fn centered_product(fs: Seq<Seq<int>>, c: Seq<usize>, m: int) -> Seq<int> {
    clean_ints(list_product(selected(fs, c)).map_values(|x: int| centered(x, m)))
}

/// No selection of `k` of the factors has a centered product that divides
/// `f`.
pub open spec fn no_split(f: Seq<int>, fs: Seq<Seq<int>>, m: int, k: nat) -> bool {
    forall|c: Seq<usize>| is_selection(c, fs.len(), k) ==> !poly_divides(#[trigger] centered_product(fs, c, m), f)
}

/// Every polynomial of the list is non-empty, with leading coefficient 1.
pub open spec fn all_monic(s: Seq<Seq<int>>) -> bool {
    forall|i: int| 0 <= i < s.len() ==> (#[trigger] s[i]).len() >= 1 && s[i].last() == 1
}

/// No polynomial occurs twice in the list.
pub open spec fn all_distinct(s: Seq<Seq<int>>) -> bool {
    forall|i: int, j: int| 0 <= i < s.len() && 0 <= j < s.len() && i != j ==> #[trigger] s[i] != #[trigger] s[j]
}

/// The number of polynomials times the length of any one of them fits in a
/// `usize`.
pub open spec fn lengths_fit(s: Seq<Seq<int>>) -> bool {
    forall|i: int| 0 <= i < s.len() ==> s.len() * (#[trigger] s[i]).len() < usize::MAX
}

/// The product of a list of polynomials, starting from the constant 1.
pub open spec fn list_product(s: Seq<Seq<int>>) -> Seq<int>
    decreases s.len(),
{
    if s.len() == 0 {
        seq![1int]
    } else {
        poly_product(list_product(s.drop_last()), s.last())
    }
}

/// The polynomials at the selected positions.
pub open spec fn selected(s: Seq<Seq<int>>, c: Seq<usize>) -> Seq<Seq<int>> {
    c.map_values(|i: usize| s[i as int])
}

/// The product of the factors at the selected positions.
fn product_of(factors: &[BigIntPoly], c: &[usize]) -> (r: BigIntPoly)
    requires
        all_monic(poly_views(factors@)),
        lengths_fit(poly_views(factors@)),
        is_selection(c@, factors@.len(), c@.len()),
        c@.len() < factors@.len(),
    ensures
        r@ == list_product(selected(poly_views(factors@), c@)),
        r@.len() >= 1,
        r@.last() == 1,
{
    let ghost vs = poly_views(factors@);
    let ghost sel = selected(vs, c@);
    let ghost n = factors@.len() as int;
    let ghost mx = usize::MAX - 1;
    let mut acc = BigIntPoly::one();
    assert(sel.subrange(0, 0) =~= Seq::<Seq<int>>::empty());
    let mut t: usize = 0;
    while t < c.len()
        invariant
            vs == poly_views(factors@),
            sel == selected(vs, c@),
            n == factors@.len(),
            mx == usize::MAX - 1,
            all_monic(vs),
            lengths_fit(vs),
            is_selection(c@, factors@.len(), c@.len()),
            c@.len() < n,
            t <= c@.len(),
            acc@ == list_product(sel.subrange(0, t as int)),
            acc@.len() >= 1,
            acc@.last() == 1,
            n * (acc@.len() - 1) <= t * mx,
        decreases c@.len() - t,
    {
        let i = c[t];
        let x = factors[i].duplicate();
        let ghost a = acc@.len() as int;
        let ghost b = vs[i as int].len() as int;
        proof {
            assert(vs[i as int] == factors@[i as int]@);
            assert(n * b < usize::MAX);
            let tt = t as int;
            assert(n * (a - 1 + b) <= (tt + 1) * mx) by (nonlinear_arith)
                requires
                    n * (a - 1) <= tt * mx,
                    n * b <= mx,
                    n > 0,
            ;
            assert((tt + 1) * mx <= (n - 1) * mx) by (nonlinear_arith)
                requires
                    tt + 1 <= n - 1,
                    mx > 0,
            ;
            assert(a - 1 + b < mx) by (nonlinear_arith)
                requires
                    n * (a - 1 + b) <= (n - 1) * mx,
                    n > 0,
                    mx > 0,
            ;
        }
        let ghost prev = acc@;
        acc = acc.mul(x);
        proof {
            lemma_product_monic(prev, vs[i as int]);
            assert(sel.subrange(0, t + 1).drop_last() =~= sel.subrange(0, t as int));
            assert(sel[t as int] == vs[i as int]);
            let tt = t as int;
            assert(n * (a + b - 2) <= (tt + 1) * mx) by (nonlinear_arith)
                requires
                    n * (a - 1) <= tt * mx,
                    n * b <= mx,
                    n > 0,
                    b >= 1,
            ;
        }
        t = t + 1;
    }
    assert(sel.subrange(0, c@.len() as int) =~= sel);
    acc
}

/// Position `i` is not among the first `k` selected ones.
pub open spec fn not_selected(c: Seq<usize>, k: nat, i: int) -> bool {
    forall|u: int| 0 <= u < k ==> #[trigger] c[u] != i
}

proof fn lemma_missing_position(c: Seq<usize>, n: nat, k: nat, t: nat)
    requires
        is_selection(c, n, k),
        k < n,
        t <= k,
        forall|u: int| 0 <= u < t ==> #[trigger] c[u] == u,
    ensures
        exists|i: int| 0 <= i < n && #[trigger] not_selected(c, k, i),
    decreases k - t,
{
    if t == k {
        assert forall|u: int| 0 <= u < k implies #[trigger] c[u] != k as int by {
        }
        assert(not_selected(c, k, k as int));
    } else if c[t as int] != t {
        if t > 0 {
            assert(c[t - 1] < c[t as int]);
        }
        assert forall|u: int| 0 <= u < k implies #[trigger] c[u] != t as int by {
            if u > t {
                assert(c[t as int] < c[u]);
            }
        }
        assert(not_selected(c, k, t as int));
    } else {
        lemma_missing_position(c, n, k, t + 1);
    }
}

/// The factors, in order, but for those equal to a selected one.
fn without(factors: &[BigIntPoly], c: &[usize]) -> (r: Vec<BigIntPoly>)
    requires
        all_monic(poly_views(factors@)),
        all_distinct(poly_views(factors@)),
        lengths_fit(poly_views(factors@)),
        is_selection(c@, factors@.len(), c@.len()),
        1 <= c@.len() < factors@.len(),
    ensures
        poly_views(r@) == poly_views(factors@).filter(
            |x: Seq<int>| !selected(poly_views(factors@), c@).contains(x),
        ),
        1 <= r@.len() < factors@.len(),
        all_monic(poly_views(r@)),
        all_distinct(poly_views(r@)),
        lengths_fit(poly_views(r@)),
{
    let ghost vs = poly_views(factors@);
    let ghost sel = selected(vs, c@);
    let ghost pred = |x: Seq<int>| !sel.contains(x);
    let ghost n = factors@.len();
    let ghost k = c@.len();
    proof {
        lemma_missing_position(c@, n, k, 0);
    }
    let ghost i0 = choose|i: int| 0 <= i < n && #[trigger] not_selected(c@, k, i);
    let ghost c0 = c@[0] as int;
    let mut r: Vec<BigIntPoly> = Vec::new();
    let ghost mut idx: Seq<int> = Seq::empty();
    assert(vs.subrange(0, 0) =~= Seq::<Seq<int>>::empty());
    let mut i: usize = 0;
    while i < factors.len()
        invariant
            vs == poly_views(factors@),
            sel == selected(vs, c@),
            pred == (|x: Seq<int>| !sel.contains(x)),
            n == factors@.len(),
            k == c@.len(),
            is_selection(c@, n, k),
            1 <= k < n,
            all_distinct(vs),
            0 <= i0 < n,
            not_selected(c@, k, i0),
            c0 == c@[0],
            i <= n,
            poly_views(r@) == vs.subrange(0, i as int).filter(pred),
            idx.len() == r@.len(),
            forall|j: int| 0 <= j < idx.len() ==> 0 <= #[trigger] idx[j] < i && r@[j]@ == vs[idx[j]],
            forall|j1: int, j2: int| 0 <= j1 < j2 < idx.len() ==> #[trigger] idx[j1] < #[trigger] idx[j2],
            r@.len() <= i - (if c0 < i { 1int } else { 0int }),
            i0 < i ==> r@.len() >= 1,
        decreases n - i,
    {
        let mut found = false;
        let mut u: usize = 0;
        while u < c.len()
            invariant
                vs == poly_views(factors@),
                sel == selected(vs, c@),
                is_selection(c@, n, k),
                n == factors@.len(),
                k == c@.len(),
                i < n,
                u <= k,
                found == exists|w: int| 0 <= w < u && #[trigger] sel[w] == vs[i as int],
            decreases k - u,
        {
            let w = c[u];
            assert(sel[u as int] == vs[w as int]);
            assert(vs[w as int] == factors@[w as int]@);
            assert(vs[i as int] == factors@[i as int]@);
            if factors[i].equals(&factors[w]) {
                found = true;
            }
            u = u + 1;
        }
        proof {
            assert(found == sel.contains(vs[i as int]));
            assert(vs.subrange(0, i + 1).drop_last() =~= vs.subrange(0, i as int));
            assert(vs.subrange(0, i + 1).last() == vs[i as int]);
            reveal(Seq::filter);
            if i as int == c0 {
                assert(sel[0] == vs[i as int]);
            }
            if i as int == i0 {
                if found {
                    let w = choose|w: int| 0 <= w < k && #[trigger] sel[w] == vs[i as int];
                    assert(sel[w] == vs[c@[w] as int]);
                    assert(c@[w] != i0);
                }
            }
        }
        if !found {
            let x = factors[i].duplicate();
            let ghost prev = r@;
            r.push(x);
            proof {
                assert(vs[i as int] == factors@[i as int]@);
                assert(poly_views(r@) =~= poly_views(prev).push(vs[i as int]));
                idx = idx.push(i as int);
            }
        }
        i = i + 1;
    }
    proof {
        assert(vs.subrange(0, n as int) =~= vs);
        let rv = poly_views(r@);
        assert forall|j: int| 0 <= j < rv.len() implies (#[trigger] rv[j]).len() >= 1 && rv[j].last() == 1 by {
            assert(rv[j] == r@[j]@);
            assert(vs[idx[j]] == rv[j]);
        }
        assert forall|j1: int, j2: int| 0 <= j1 < rv.len() && 0 <= j2 < rv.len() && j1 != j2 implies #[trigger] rv[j1]
            != #[trigger] rv[j2] by {
            assert(rv[j1] == r@[j1]@);
            assert(rv[j2] == r@[j2]@);
            if j1 < j2 {
                assert(idx[j1] < idx[j2]);
            } else {
                assert(idx[j2] < idx[j1]);
            }
        }
        assert forall|j: int| 0 <= j < rv.len() implies rv.len() * (#[trigger] rv[j]).len() < usize::MAX by {
            assert(rv[j] == r@[j]@);
            let x = rv[j].len() as int;
            let a = rv.len() as int;
            let b = n as int;
            assert(vs[idx[j]] == rv[j]);
            assert(0 <= idx[j] < n);
            assert(vs.len() * vs[idx[j]].len() < usize::MAX);
            assert(b * x < usize::MAX);
            assert(a * x <= b * x) by (nonlinear_arith)
                requires
                    a <= b,
                    x >= 0,
            ;
        }
    }
    r
}

/// The two coefficient lists agree, up to trailing zeros.
pub open spec fn same_poly(a: Seq<int>, b: Seq<int>) -> bool {
    forall|k: int| #[trigger] coef(a, k) == coef(b, k)
}

proof fn lemma_list_product_len(s: Seq<Seq<int>>)
    requires
        forall|i: int| 0 <= i < s.len() ==> (#[trigger] s[i]).len() >= 1,
    ensures
        list_product(s).len() >= 1,
    decreases s.len(),
{
    if s.len() > 0 {
        lemma_list_product_len(s.drop_last());
    }
}

/// Centering a product of monic factors keeps its leading coefficient 1.
proof fn lemma_centered_monic(p: Seq<int>, m: int)
    requires
        p.len() >= 1,
        p.last() == 1,
        m >= 2,
    ensures
        clean_ints(p.map_values(|c: int| centered(c, m))) == p.map_values(|c: int| centered(c, m)),
        p.map_values(|c: int| centered(c, m)).last() == 1,
{
    let q = p.map_values(|c: int| centered(c, m));
    assert(iabs(m) == m);
    assert(iabs(2) == 2);
    assert(iabs(1) == 1);
    assert((1 as nat) / (m as nat) == 0) by (nonlinear_arith)
        requires
            m >= 2,
    ;
    assert(tdiv(1, m) == 0);
    assert(trem(1, m) == 1);
    assert(tdiv(m, 2) >= 1);
    assert(centered(1, m) == 1);
    assert(q.last() == centered(p.last(), m));
}

/// A remainder with no trailing zeros whose coefficients are all zero is the
/// single coefficient 0.
proof fn lemma_clean_zero(r: Seq<int>)
    requires
        r.len() >= 1,
        clean_ints(r) == r,
        forall|k: int| #[trigger] coef(r, k) == 0,
    ensures
        r =~= seq![0int],
{
    lemma_clean_ints(r);
    assert(coef(r, r.len() - 1) == 0);
    assert(coef(r, 0) == 0);
}

/// The outcome of the search in `reconstruct` for the factor list `fs` of
/// `f`: a single factor means `f` itself, no selection of at most half of the
/// factors splitting it (when `f` has no trailing zeros); otherwise the last
/// factor is the centered product of a selection, as small as any that
/// splits `f`, and it divides `f`.
pub open spec fn search_outcome(f: Seq<int>, fs: Seq<Seq<int>>, m: int, rv: Seq<Seq<int>>) -> bool {
    &&& rv.len() == 1 ==> rv[0] == f
    &&& rv.len() == 1 && clean_ints(f) == f ==> forall|k: nat|
        1 <= k <= fs.len() / 2 ==> #[trigger] no_split(f, fs, m, k)
    &&& rv.len() >= 2 ==> exists|c: Seq<usize>|
        {
            &&& 1 <= c.len() <= fs.len() / 2
            &&& is_selection(c, fs.len(), c.len())
            &&& rv.last() == #[trigger] centered_product(fs, c, m)
            &&& poly_divides(centered_product(fs, c, m), f)
            &&& clean_ints(f) == f ==> forall|k: nat| 1 <= k < c.len() ==> #[trigger] no_split(f, fs, m, k)
        }
}

/// Recombines the factors: tries every selection of at most half of them,
/// fewest first; when the centered product of a selection divides `f`, it is
/// kept and the quotient is recombined from the other factors. The factors
/// returned multiply back to `f` (`search_outcome` says which come last).
pub fn reconstruct_factor_list(f: BigIntPoly, factors: Vec<BigIntPoly>, m: &Int) -> (r: Vec<BigIntPoly>)
    requires
        factors@.len() >= 1,
        all_monic(poly_views(factors@)),
        all_distinct(poly_views(factors@)),
        lengths_fit(poly_views(factors@)),
        m@ >= 2,
    ensures
        r@.len() >= 1,
        forall|i: int| 0 <= i < r@.len() ==> (#[trigger] poly_views(r@)[i]).len() >= 1,
        same_poly(list_product(poly_views(r@)), f@),
        search_outcome(f@, poly_views(factors@), m@, poly_views(r@)),
    decreases factors@.len(),
{
    let ghost fs = poly_views(factors@);
    let n = factors.len();
    let mut k: usize = 1;
    while k <= n / 2
        invariant
            n == factors@.len(),
            fs == poly_views(factors@),
            n >= 1,
            all_monic(poly_views(factors@)),
            all_distinct(poly_views(factors@)),
            lengths_fit(poly_views(factors@)),
            m@ >= 2,
            k >= 1,
            k <= n / 2 + 1,
            clean_ints(f@) == f@ ==> forall|k2: nat| 1 <= k2 < k ==> #[trigger] no_split(f@, fs, m@, k2),
        decreases n / 2 + 1 - k,
    {
        let combos = combinations_of_range(n, k);
        let mut t: usize = 0;
        while t < combos.len()
            invariant
                n == factors@.len(),
                fs == poly_views(factors@),
                1 <= k <= n / 2,
                all_monic(poly_views(factors@)),
                all_distinct(poly_views(factors@)),
                lengths_fit(poly_views(factors@)),
                m@ >= 2,
                forall|u: int| 0 <= u < combos@.len() ==> is_selection(#[trigger] index_lists(combos@)[u], n as nat, k as nat),
                forall|c: Seq<usize>| is_selection(c, n as nat, k as nat) ==> #[trigger] index_lists(combos@).contains(c),
                t <= combos@.len(),
                clean_ints(f@) == f@ ==> forall|k2: nat| 1 <= k2 < k ==> #[trigger] no_split(f@, fs, m@, k2),
                clean_ints(f@) == f@ ==> forall|u: int|
                    0 <= u < t ==> !poly_divides(#[trigger] centered_product(fs, index_lists(combos@)[u], m@), f@),
            decreases combos@.len() - t,
        {
            let c = combos[t].as_slice();
            assert(index_lists(combos@)[t as int] == c@);
            let product = product_of(factors.as_slice(), c);
            let cp = center_coefficients(&product, m);
            proof {
                lemma_centered_monic(product@, m@);
                assert(cp@ == centered_product(fs, c@, m@));
            }
            let rem = uni_poly_remainder(&f, &cp).unwrap();
            if rem.is_zero() {
                let div = uni_poly_division(&f, &cp).unwrap();
                let remaining = without(factors.as_slice(), c);
                let ghost dv = div@;
                let ghost cv = cp@;
                let mut result = reconstruct_factor_list(div, remaining, m);
                let ghost rec = poly_views(result@);
                result.push(cp);
                proof {
                    let rv = poly_views(result@);
                    assert(rv =~= rec.push(cv));
                    assert(rv.drop_last() =~= rec);
                    lemma_division_identity(f@, cv, dv, rem@);
                    assert forall|i: int| 0 <= i < rv.len() implies (#[trigger] rv[i]).len() >= 1 by {
                        if i < rec.len() {
                            assert(rv[i] == rec[i]);
                        }
                    }
                    lemma_list_product_len(rec);
                    let lp = list_product(rec);
                    lemma_product_coefs(lp, cv);
                    lemma_product_congruent(lp, dv, cv);
                    assert forall|j: int| #[trigger] coef(list_product(rv), j) == coef(f@, j) by {
                        assert(coef(list_product(rv), j) == product_coef(lp, cv, j));
                        assert(coef(f@, j) == product_coef(dv, cv, j) + coef(rem@, j));
                        assert(coef(rem@, j) == 0);
                    }
                    assert(rem@ =~= seq![0int]);
                    assert(divides_with(f@, cv, dv, seq![0int]));
                    assert(poly_divides(cv, f@));
                    assert(rv.last() == centered_product(fs, c@, m@));
                }
                return result;
            }
            proof {
                if clean_ints(f@) == f@ && poly_divides(cp@, f@) {
                    use_type_invariant(&rem);
                    lemma_remainder_of_multiple(f@, cp@, rem@);
                    lemma_clean_zero(rem@);
                }
            }
            t = t + 1;
        }
        proof {
            if clean_ints(f@) == f@ {
                assert forall|c: Seq<usize>| is_selection(c, fs.len(), k as nat) implies !poly_divides(
                    #[trigger] centered_product(fs, c, m@),
                    f@,
                ) by {
                    assert(index_lists(combos@).contains(c));
                    let u = choose|u: int| 0 <= u < index_lists(combos@).len() && index_lists(combos@)[u] == c;
                    assert(!poly_divides(centered_product(fs, index_lists(combos@)[u], m@), f@));
                }
                assert(no_split(f@, fs, m@, k as nat));
                assert forall|k2: nat| 1 <= k2 < k + 1 implies #[trigger] no_split(f@, fs, m@, k2) by {
                    if k2 < k {
                    }
                }
            }
        }
        k = k + 1;
    }
    let ghost fv = f@;
    proof {
        use_type_invariant(&f);
    }
    let result = vec![f];
    proof {
        let rv = poly_views(result@);
        assert(rv =~= seq![fv]);
        assert(rv.drop_last() =~= Seq::<Seq<int>>::empty());
        lemma_product_coefs(seq![1int], fv);
        assert(list_product(rv.drop_last()) == seq![1int]);
        assert(list_product(rv) == poly_product(seq![1int], fv));
        assert forall|j: int| #[trigger] coef(list_product(rv), j) == coef(fv, j) by {
            lemma_product_constant(1, fv, j);
        }
    }
    result
}

/// Recombines factors of `f` found modulo `m` into factors over the
/// integers: tries every selection of at most half of the factors, fewest
/// first; when the centered product of a selection divides `f`, it becomes a
/// factor and the quotient is recombined from the factors left; `f` itself is
/// the last factor when no selection divides it. The factors returned
/// multiply back to `f`, and `search_outcome` says which one comes last.
pub fn reconstruct_factors(f: BigIntPoly, factors: Vec1<BigIntPoly>, m: &Int) -> (r: Vec1<BigIntPoly>)
    requires
        all_monic(poly_vec1_views(factors)),
        all_distinct(poly_vec1_views(factors)),
        lengths_fit(poly_vec1_views(factors)),
        m@ >= 2,
    ensures
        poly_vec1_views(r).len() >= 1,
        same_poly(list_product(poly_vec1_views(r)), f@),
        search_outcome(f@, poly_vec1_views(factors), m@, poly_vec1_views(r)),
{
    let v = poly_vec1_into_vec(factors);
    let out = reconstruct_factor_list(f, v, m);
    poly_vec1_from_vec(out).unwrap()
}

} // verus!
