//! Determinants of matrices of polynomials by evaluation and interpolation.
use crate::cad::rational_matrix::{copy_row, determinant, gauss_det, minus_scaled, row_minus_scaled, rows_cover};
use crate::linear_algebra::matrix_view;
use crate::nonempty::rat_values;
use crate::number::{qabs, qadd, qdiv, qint, qlt, qmul, qsub, Int, Q, Rat};
use crate::polynomial::{map_add_terms, Exponent, Polynomial};
use itertools::Itertools;
use vstd::arithmetic::power::pow;
use vstd::prelude::*;

verus! {

/// The entry of `k` for variable `v`, 0 when `k` is shorter.
pub open spec fn entry_or_zero(k: Seq<u32>, v: int) -> u32 {
    if 0 <= v < k.len() {
        k[v]
    } else {
        0
    }
}

/// The greatest exponent of variable `var_index` in `poly`; 0 for the zero
/// polynomial.
pub fn degree_of_variable(poly: &Polynomial, var_index: usize) -> (r: u32)
    ensures
        forall|k: Seq<u32>| #[trigger] poly@.contains_key(k) ==> entry_or_zero(k, var_index as int) <= r,
        r == 0 || exists|k: Seq<u32>| #[trigger] poly@.contains_key(k) && entry_or_zero(k, var_index as int) == r,
{
    proof {
        use_type_invariant(poly);
        crate::polynomial::lemma_seq_to_map(poly.term_seq());
    }
    let terms = poly.raw_iter();
    let ghost ts = poly.term_seq();
    let mut best: u32 = 0;
    let mut i: usize = 0;
    while i < terms.len()
        invariant
            crate::polynomial::terms_view(terms@) == ts,
            i <= terms@.len(),
            forall|j: int| 0 <= j < i ==> entry_or_zero(#[trigger] ts[j].0, var_index as int) <= best,
            best == 0 || exists|j: int| 0 <= j < i && entry_or_zero(#[trigger] ts[j].0, var_index as int) == best,
        decreases terms@.len() - i,
    {
        assert(ts[i as int] == crate::polynomial::term_view(terms@[i as int]));
        let xs = terms[i].0.as_slice();
        let d: u32 = if var_index < xs.len() {
            xs[var_index]
        } else {
            0
        };
        assert(d == entry_or_zero(ts[i as int].0, var_index as int));
        if d > best {
            best = d;
        }
        i = i + 1;
    }
    proof {
        assert forall|k: Seq<u32>| #[trigger] poly@.contains_key(k) implies entry_or_zero(k, var_index as int) <= best by {
            let j = choose|j: int| 0 <= j < ts.len() && ts[j].0 == k;
        }
        if best != 0 {
            let j = choose|j: int| 0 <= j < ts.len() && entry_or_zero(#[trigger] ts[j].0, var_index as int) == best;
            assert(poly@.contains_key(ts[j].0));
        }
    }
    best
}

/// `c` times `vals[j]^e[j]` for the first `m` positions.
pub open spec fn monomial_factor(c: Q, e: Seq<u32>, vals: Seq<u32>, m: nat) -> Q
    decreases m,
{
    if m == 0 {
        c
    } else {
        qmul(monomial_factor(c, e, vals, (m - 1) as nat), qint(pow(vals[m - 1] as int, e[m - 1] as nat)))
    }
}

/// The value of one term at the point `vals` (over the positions that both
/// have).
pub open spec fn term_value(t: (Seq<u32>, Q), vals: Seq<u32>) -> Q {
    let m = if t.0.len() <= vals.len() {
        t.0.len()
    } else {
        vals.len()
    };
    monomial_factor(t.1, t.0, vals, m)
}

/// The values of the terms at the point `vals`, summed in order from 0.
pub open spec fn sum_values(ts: Seq<(Seq<u32>, Q)>, vals: Seq<u32>) -> Q
    decreases ts.len(),
{
    if ts.len() == 0 {
        qint(0)
    } else {
        qadd(sum_values(ts.drop_last(), vals), term_value(ts.last(), vals))
    }
}

/// The value of `poly` at the point `subst_values`.
pub fn substitute_polynomial(poly: &Polynomial, subst_values: &[u32]) -> (r: Rat)
    ensures
        r@ == sum_values(poly.term_seq(), subst_values@),
{
    let terms = poly.raw_iter();
    let ghost ts = poly.term_seq();
    let mut total = Rat::from_i64(0);
    let mut i: usize = 0;
    while i < terms.len()
        invariant
            crate::polynomial::terms_view(terms@) == ts,
            i <= terms@.len(),
            total@ == sum_values(ts.subrange(0, i as int), subst_values@),
        decreases terms@.len() - i,
    {
        assert(ts[i as int] == crate::polynomial::term_view(terms@[i as int]));
        let xs = terms[i].0.as_slice();
        let m = if xs.len() <= subst_values.len() {
            xs.len()
        } else {
            subst_values.len()
        };
        let mut term = terms[i].1.duplicate();
        let mut j: usize = 0;
        while j < m
            invariant
                j <= m,
                m <= xs@.len(),
                m <= subst_values@.len(),
                xs@ == ts[i as int].0,
                i < ts.len(),
                term@ == monomial_factor(ts[i as int].1, ts[i as int].0, subst_values@, j as nat),
            decreases m - j,
        {
            let power = Int::from_usize(subst_values[j] as usize).pow(xs[j]);
            term = term.mul(&Rat::from_integer(&power));
            j = j + 1;
        }
        proof {
            assert(ts.subrange(0, i + 1).drop_last() =~= ts.subrange(0, i as int));
            assert(ts.subrange(0, i + 1).last() == ts[i as int]);
        }
        total = total.add(&term);
        i = i + 1;
    }
    assert(ts.subrange(0, terms@.len() as int) =~= ts);
    total
}

/// `row[0] x[0] + ... + row[m-1] x[m-1]`, summed in order from 0.
pub open spec fn dot(row: Seq<Q>, x: Seq<Q>, m: nat) -> Q
    decreases m,
{
    if m == 0 {
        qint(0)
    } else {
        qadd(dot(row, x, (m - 1) as nat), qmul(row[m - 1], x[m - 1]))
    }
}

/// `x` solves the equations `a x = b`.
pub open spec fn solves(a: Seq<Seq<Q>>, b: Seq<Q>, x: Seq<Q>) -> bool {
    &&& x.len() == a.len()
    &&& b.len() == a.len()
    &&& forall|i: int| 0 <= i < a.len() ==> dot(#[trigger] a[i], x, x.len()) == b[i]
}

/// `a` is a square matrix with as many rows as `b` has entries.
pub open spec fn square_system(a: Seq<Seq<Q>>, b: Seq<Q>) -> bool {
    b.len() == a.len() && forall|i: int| 0 <= i < a.len() ==> (#[trigger] a[i]).len() == a.len()
}

proof fn lemma_qdiv_self_nonzero(p: Q)
    requires
        p.n != 0,
        p.d > 0,
    ensures
        qdiv(p, p).n != 0,
{
    assert(p.n * p.d != 0) by (nonlinear_arith)
        requires
            p.n != 0,
            p.d > 0,
    ;
    assert(p.d * p.n != 0) by (nonlinear_arith)
        requires
            p.n != 0,
            p.d > 0,
    ;
    crate::number::lemma_qnorm_zero(p.n * p.d, p.d * p.n);
}

/// A copy of a list of numbers.
fn copy_values(v: &[Rat]) -> (r: Vec<Rat>)
    ensures
        rat_values(r@) == rat_values(v@),
{
    let mut out: Vec<Rat> = Vec::new();
    let mut k: usize = 0;
    while k < v.len()
        invariant
            k <= v@.len(),
            rat_values(out@) == rat_values(v@).subrange(0, k as int),
        decreases v@.len() - k,
    {
        let ghost prev = out@;
        let x = v[k].duplicate();
        out.push(x);
        proof {
            assert(out@ == prev.push(x));
            assert(rat_values(out@) =~= rat_values(prev).push(x@));
            assert(rat_values(v@)[k as int] == v@[k as int]@);
        }
        k = k + 1;
        assert(rat_values(out@) =~= rat_values(v@).subrange(0, k as int));
    }
    assert(rat_values(v@).subrange(0, v@.len() as int) =~= rat_values(v@));
    out
}

/// Whether `x` solves `a x = b`, row by row.
fn check_solution(a: &[Vec<Rat>], b: &[Rat], x: &[Rat]) -> (r: bool)
    requires
        square_system(matrix_view(a@), rat_values(b@)),
        x@.len() == a@.len(),
    ensures
        r == solves(matrix_view(a@), rat_values(b@), rat_values(x@)),
{
    let ghost av = matrix_view(a@);
    let ghost bv = rat_values(b@);
    let ghost xv = rat_values(x@);
    let n = a.len();
    let mut i: usize = 0;
    while i < n
        invariant
            n == a@.len() == x@.len() == b@.len(),
            av == matrix_view(a@),
            bv == rat_values(b@),
            xv == rat_values(x@),
            square_system(av, bv),
            i <= n,
            forall|t: int| 0 <= t < i ==> dot(#[trigger] av[t], xv, xv.len()) == bv[t],
        decreases n - i,
    {
        let row = &a[i];
        assert(av[i as int] == rat_values(row@));
        assert(av[i as int].len() == n);
        let mut acc = Rat::from_i64(0);
        let mut k: usize = 0;
        while k < n
            invariant
                n == row@.len() == x@.len(),
                av[i as int] == rat_values(row@),
                xv == rat_values(x@),
                k <= n,
                acc@ == dot(av[i as int], xv, k as nat),
            decreases n - k,
        {
            assert(av[i as int][k as int] == row@[k as int]@);
            assert(xv[k as int] == x@[k as int]@);
            acc = acc.add(&row[k].mul(&x[k]));
            k = k + 1;
        }
        assert(bv[i as int] == b@[i as int]@);
        if !acc.eq(&b[i]) {
            return false;
        }
        i = i + 1;
    }
    true
}

/// The row, from `j` on, whose entry in column `i` has the greatest absolute
/// value (the first such), `cur` being the best so far.
pub open spec fn pivot_from(m: Seq<Seq<Q>>, i: int, j: nat, cur: int) -> int
    decreases m.len() - j,
{
    if j >= m.len() {
        cur
    } else {
        pivot_from(m, i, j + 1, if qlt(qabs(m[cur][i]), qabs(m[j as int][i])) { j as int } else { cur })
    }
}

/// `s` with entries `i` and `p` swapped.
pub open spec fn swap_entries<T>(s: Seq<T>, i: int, p: int) -> Seq<T> {
    if p == i {
        s
    } else {
        s.update(i, s[p]).update(p, s[i])
    }
}

/// Row `i` of `m` from column `i` on divided by `pv`.
pub open spec fn scaled_row(m: Seq<Seq<Q>>, i: int, pv: Q) -> Seq<Q> {
    Seq::new(m.len(), |k: int| if k >= i { qdiv(m[i][k], pv) } else { m[i][k] })
}

/// Row `j` of `m` after clearing column `i` with the row `row` (whose entry
/// there is `row[i]`).
pub open spec fn cleared_row(m: Seq<Seq<Q>>, row: Seq<Q>, i: int, j: int) -> Seq<Q> {
    minus_scaled(m[j], row, qdiv(m[j][i], row[i]), i)
}

/// Entry `j` of `b` after clearing column `i` of `m` with the row `row` and
/// the right-hand value `bi`.
pub open spec fn cleared_rhs(m: Seq<Seq<Q>>, b: Seq<Q>, row: Seq<Q>, bi: Q, i: int, j: int) -> Q {
    qsub(b[j], qmul(qdiv(m[j][i], row[i]), bi))
}

/// One Gauss-Jordan step at column `i`: the row with the entry of greatest
/// absolute value swapped up, divided by that entry, and the column cleared
/// in the other rows; `None` when that entry is zero.
pub open spec fn gj_step(m: Seq<Seq<Q>>, b: Seq<Q>, i: int) -> Option<(Seq<Seq<Q>>, Seq<Q>)> {
    let p = pivot_from(m, i, (i + 1) as nat, i);
    if m[p][i].n == 0 {
        None
    } else {
        let m1 = swap_entries(m, i, p);
        let b1 = swap_entries(b, i, p);
        let pv = m1[i][i];
        let row = scaled_row(m1, i, pv);
        let bi = qdiv(b1[i], pv);
        Some(
            (
                Seq::new(m.len(), |j: int| if j == i { row } else { cleared_row(m1, row, i, j) }),
                Seq::new(m.len(), |j: int| if j == i { bi } else { cleared_rhs(m1, b1, row, bi, i, j) }),
            ),
        )
    }
}

/// The matrix and right-hand side after the steps at columns `0..i`.
pub open spec fn gj_iter(m: Seq<Seq<Q>>, b: Seq<Q>, i: nat) -> Option<(Seq<Seq<Q>>, Seq<Q>)>
    decreases i,
{
    if i == 0 {
        Some((m, b))
    } else {
        match gj_iter(m, b, (i - 1) as nat) {
            None => None,
            Some(st) => gj_step(st.0, st.1, i - 1),
        }
    }
}

proof fn lemma_gj_none(m: Seq<Seq<Q>>, b: Seq<Q>, i: nat, k: nat)
    requires
        i <= k,
        gj_iter(m, b, i) is None,
    ensures
        gj_iter(m, b, k) is None,
    decreases k - i,
{
    if i < k {
        lemma_gj_none(m, b, i, (k - 1) as nat);
    }
}

/// Solves `a x = b` by Gauss-Jordan elimination with the pivot of greatest
/// absolute value in each column (`gj_iter`), and checks the answer. `None`
/// when `a` is not square or does not match `b`, when a column has no
/// non-zero pivot left, or when the answer fails the check.
pub fn solve_linear_system(a: &[Vec<Rat>], b: &[Rat]) -> (r: Option<Vec<Rat>>)
    ensures
        !square_system(matrix_view(a@), rat_values(b@)) ==> r is None,
        r matches Some(x) ==> solves(matrix_view(a@), rat_values(b@), rat_values(x@)),
        r is Some <==> (square_system(matrix_view(a@), rat_values(b@)) && (gj_iter(
            matrix_view(a@),
            rat_values(b@),
            a@.len(),
        ) matches Some(st) && solves(matrix_view(a@), rat_values(b@), st.1))),
        r matches Some(x) ==> gj_iter(matrix_view(a@), rat_values(b@), a@.len()) matches Some(st) && rat_values(x@)
            == st.1,
{
    let n = a.len();
    let ghost av = matrix_view(a@);
    let ghost bv = rat_values(b@);
    let mut t: usize = 0;
    while t < n
        invariant
            n == a@.len(),
            av == matrix_view(a@),
            t <= n,
            forall|s: int| 0 <= s < t ==> (#[trigger] av[s]).len() == n,
        decreases n - t,
    {
        assert(av[t as int] == rat_values(a@[t as int]@));
        if a[t].len() != n {
            return None;
        }
        t = t + 1;
    }
    if b.len() != n {
        return None;
    }
    let mut mat: Vec<Vec<Rat>> = Vec::new();
    let mut t: usize = 0;
    while t < n
        invariant
            n == a@.len(),
            av == matrix_view(a@),
            forall|s: int| 0 <= s < n ==> (#[trigger] av[s]).len() == n,
            t <= n,
            mat@.len() == t,
            forall|s: int| 0 <= s < t ==> (#[trigger] mat@[s])@.len() == n,
            matrix_view(mat@) == av.subrange(0, t as int),
        decreases n - t,
    {
        assert(av[t as int] == rat_values(a@[t as int]@));
        let row = copy_row(&a[t]);
        assert(rat_values(row@).len() == row@.len());
        let ghost prev = mat@;
        mat.push(row);
        proof {
            assert(matrix_view(mat@) =~= matrix_view(prev).push(rat_values(row@)));
            assert(matrix_view(mat@) =~= av.subrange(0, t + 1));
        }
        t = t + 1;
    }
    assert(av.subrange(0, n as int) =~= av);
    let mut rhs = copy_values(b);
    assert(rat_values(rhs@).len() == rhs@.len());
    let mut i: usize = 0;
    while i < n
        invariant
            n == a@.len(),
            av == matrix_view(a@),
            bv == rat_values(b@),
            mat@.len() == n,
            rhs@.len() == n,
            i <= n,
            forall|s: int| 0 <= s < n ==> (#[trigger] mat@[s])@.len() == n,
            gj_iter(av, bv, i as nat) == Some((matrix_view(mat@), rat_values(rhs@))),
        decreases n - i,
    {
        let ghost mm = matrix_view(mat@);
        let ghost bb = rat_values(rhs@);
        let mut pivot: usize = i;
        let mut j: usize = i + 1;
        while j < n
            invariant
                mat@.len() == n,
                mm == matrix_view(mat@),
                i < n,
                i <= pivot < n,
                i + 1 <= j <= n,
                forall|s: int| 0 <= s < n ==> (#[trigger] mat@[s])@.len() == n,
                pivot_from(mm, i as int, j as nat, pivot as int) == pivot_from(mm, i as int, (i + 1) as nat, i as int),
            decreases n - j,
        {
            assert(mm[pivot as int] == rat_values(mat@[pivot as int]@));
            assert(mm[j as int] == rat_values(mat@[j as int]@));
            assert(mm[pivot as int][i as int] == mat@[pivot as int]@[i as int]@);
            assert(mm[j as int][i as int] == mat@[j as int]@[i as int]@);
            if mat[pivot][i].abs().lt(&mat[j][i].abs()) {
                pivot = j;
            }
            j = j + 1;
        }
        assert(mm[pivot as int] == rat_values(mat@[pivot as int]@));
        assert(mm[pivot as int][i as int] == mat@[pivot as int]@[i as int]@);
        if mat[pivot][i].is_zero() {
            proof {
                assert(gj_iter(av, bv, (i + 1) as nat) is None);
                lemma_gj_none(av, bv, (i + 1) as nat, n as nat);
            }
            return None;
        }
        let ghost pv = mat@[pivot as int]@[i as int]@;
        if pivot != i {
            let ghost before = mat@;
            let ghost rbefore = rhs@;
            let ri = copy_row(&mat[i]);
            let rp = copy_row(&mat[pivot]);
            mat.set(i, rp);
            mat.set(pivot, ri);
            proof {
                assert(rat_values(mat@[i as int]@) == rat_values(before[pivot as int]@));
                assert(rat_values(mat@[i as int]@)[i as int] == mat@[i as int]@[i as int]@);
                assert(rat_values(before[pivot as int]@)[i as int] == before[pivot as int]@[i as int]@);
                assert(rat_values(mat@[pivot as int]@).len() == mat@[pivot as int]@.len());
                assert(rat_values(mat@[i as int]@).len() == mat@[i as int]@.len());
                assert(rat_values(before[i as int]@).len() == before[i as int]@.len());
                assert(rat_values(before[pivot as int]@).len() == before[pivot as int]@.len());
                assert forall|s: int| 0 <= s < n implies (#[trigger] mat@[s])@.len() == n by {
                    if s != i && s != pivot {
                        assert(mat@[s] == before[s]);
                    }
                }
                assert(matrix_view(mat@) =~= swap_entries(mm, i as int, pivot as int));
            }
            let vi = rhs[i].duplicate();
            let vp = rhs[pivot].duplicate();
            rhs.set(i, vp);
            rhs.set(pivot, vi);
            proof {
                assert(rat_values(rhs@) =~= swap_entries(bb, i as int, pivot as int));
            }
        }
        let ghost m1 = matrix_view(mat@);
        let ghost b1 = rat_values(rhs@);
        assert(m1 == swap_entries(mm, i as int, pivot as int));
        assert(b1 == swap_entries(bb, i as int, pivot as int));
        assert(mat@[i as int]@[i as int]@ == pv);
        assert(m1[i as int] == rat_values(mat@[i as int]@));
        let pivot_value = mat[i][i].duplicate();
        let ghost row = scaled_row(m1, i as int, pv);
        let mut new_row: Vec<Rat> = Vec::new();
        let mut k: usize = 0;
        while k < n
            invariant
                mat@.len() == n,
                i < n,
                m1 == matrix_view(mat@),
                m1.len() == n,
                row == scaled_row(m1, i as int, pv),
                mat@[i as int]@.len() == n,
                mat@[i as int]@[i as int]@ == pv,
                pivot_value@ == pv,
                pv.n != 0,
                k <= n,
                new_row@.len() == k,
                rat_values(new_row@) == row.subrange(0, k as int),
                k > i ==> new_row@[i as int]@ == qdiv(pv, pv),
            decreases n - k,
        {
            assert(m1[i as int] == rat_values(mat@[i as int]@));
            assert(m1[i as int][k as int] == mat@[i as int]@[k as int]@);
            let ghost prev = new_row@;
            if k >= i {
                new_row.push(mat[i][k].div(&pivot_value));
            } else {
                new_row.push(mat[i][k].duplicate());
            }
            proof {
                assert(rat_values(new_row@) =~= rat_values(prev).push(row[k as int]));
                assert(rat_values(new_row@) =~= row.subrange(0, k + 1));
            }
            k = k + 1;
        }
        assert(row.subrange(0, n as int) =~= row);
        let ghost before = mat@;
        mat.set(i, new_row);
        proof {
            use_type_invariant(&pivot_value);
            lemma_qdiv_self_nonzero(pv);
            assert forall|s: int| 0 <= s < n implies (#[trigger] mat@[s])@.len() == n by {
                if s != i {
                    assert(mat@[s] == before[s]);
                }
            }
            assert(matrix_view(mat@) =~= m1.update(i as int, row));
        }
        assert(b1[i as int] == rhs@[i as int]@);
        let ri = rhs[i].div(&pivot_value);
        let ghost bi = ri@;
        rhs.set(i, ri);
        let ghost m2 = matrix_view(mat@);
        let ghost b2 = rat_values(rhs@);
        proof {
            assert(b2 =~= b1.update(i as int, bi));
        }
        let mut j: usize = 0;
        while j < n
            invariant
                mat@.len() == n,
                rhs@.len() == n,
                i < n,
                j <= n,
                mat@[i as int]@[i as int]@.n != 0,
                forall|s: int| 0 <= s < n ==> (#[trigger] mat@[s])@.len() == n,
                m1.len() == n,
                b1.len() == n,
                m2 == m1.update(i as int, row),
                b2 == b1.update(i as int, bi),
                row[i as int] == mat@[i as int]@[i as int]@,
                rat_values(mat@[i as int]@) == row,
                rhs@[i as int]@ == bi,
                matrix_view(mat@) == Seq::new(
                    n as nat,
                    |s: int| if s < j && s != i { cleared_row(m1, row, i as int, s) } else { m2[s] },
                ),
                rat_values(rhs@) == Seq::new(
                    n as nat,
                    |s: int| if s < j && s != i { cleared_rhs(m1, b1, row, bi, i as int, s) } else { b2[s] },
                ),
            decreases n - j,
        {
            if i != j {
                let ghost mv = matrix_view(mat@);
                let ghost rv = rat_values(rhs@);
                assert(mv[j as int] == rat_values(mat@[j as int]@));
                assert(mv[j as int] == m1[j as int]);
                assert(m1[j as int][i as int] == mat@[j as int]@[i as int]@);
                let factor = mat[j][i].div(&mat[i][i]);
                let updated = row_minus_scaled(&mat[j], &mat[i], &factor, i);
                let ghost before = mat@;
                mat.set(j, updated);
                proof {
                    assert(mat@[i as int] == before[i as int]);
                    assert forall|s: int| 0 <= s < n implies (#[trigger] mat@[s])@.len() == n by {
                        if s != j {
                            assert(mat@[s] == before[s]);
                        }
                    }
                    assert(rat_values(updated@) == cleared_row(m1, row, i as int, j as int));
                    assert(matrix_view(mat@) =~= mv.update(j as int, rat_values(updated@)));
                    assert(matrix_view(mat@) =~= Seq::new(
                        n as nat,
                        |s: int| if s < j + 1 && s != i { cleared_row(m1, row, i as int, s) } else { m2[s] },
                    ));
                }
                assert(rv[j as int] == rhs@[j as int]@);
                assert(rv[j as int] == b1[j as int]);
                let v = rhs[j].sub(&factor.mul(&rhs[i]));
                let ghost vv = v@;
                rhs.set(j, v);
                proof {
                    assert(vv == cleared_rhs(m1, b1, row, bi, i as int, j as int));
                    assert(rat_values(rhs@) =~= rv.update(j as int, vv));
                    assert(rat_values(rhs@) =~= Seq::new(
                        n as nat,
                        |s: int| if s < j + 1 && s != i { cleared_rhs(m1, b1, row, bi, i as int, s) } else { b2[s] },
                    ));
                }
            } else {
                proof {
                    assert(matrix_view(mat@) =~= Seq::new(
                        n as nat,
                        |s: int| if s < j + 1 && s != i { cleared_row(m1, row, i as int, s) } else { m2[s] },
                    ));
                    assert(rat_values(rhs@) =~= Seq::new(
                        n as nat,
                        |s: int| if s < j + 1 && s != i { cleared_rhs(m1, b1, row, bi, i as int, s) } else { b2[s] },
                    ));
                }
            }
            j = j + 1;
        }
        proof {
            assert(pivot as int == pivot_from(mm, i as int, (i + 1) as nat, i as int));
            assert(matrix_view(mat@) =~= Seq::new(
                mm.len(),
                |s: int| if s == i { row } else { cleared_row(m1, row, i as int, s) },
            ));
            assert(rat_values(rhs@) =~= Seq::new(
                mm.len(),
                |s: int| if s == i { bi } else { cleared_rhs(m1, b1, row, bi, i as int, s) },
            ));
            assert(gj_step(mm, bb, i as int) == Some((matrix_view(mat@), rat_values(rhs@))));
        }
        i = i + 1;
    }
    if check_solution(a, b, rhs.as_slice()) {
        Some(rhs)
    } else {
        None
    }
}

/// The vectors `v` with `v[i]` in `0..=degrees[i]`, in lexicographic order
/// (the last entry changing fastest); the single empty vector when
/// `degrees` is empty.
pub open spec fn grid(degrees: Seq<u32>) -> Seq<Seq<u32>>
    decreases degrees.len(),
{
    if degrees.len() == 0 {
        seq![Seq::<u32>::empty()]
    } else {
        let d = degrees.last();
        grid(degrees.drop_last()).map_values(|g: Seq<u32>| Seq::new((d + 1) as nat, |v: int| g.push(v as u32))).flatten()
    }
}

/// The views of a list of vectors.
pub open spec fn vec_views(v: Seq<Vec<u32>>) -> Seq<Seq<u32>> {
    v.map_values(|x: Vec<u32>| x@)
}

/// The points of `grid(degrees)`: `itertools`' `multi_cartesian_product` of
/// the ranges `0..=d`, which its documentation gives in lexicographic order
/// with the last entry changing fastest, and as the single empty vector for
/// no ranges. Claimed: exactly `grid(degrees)`.
#[verifier::external_body]
fn degree_grid(degrees: &[u32]) -> (r: Vec<Vec<u32>>)
    ensures
        vec_views(r@) == grid(degrees@),
{
    degrees.iter().map(|&d| 0..=d).multi_cartesian_product().collect()
}

/// The greatest length of an exponent of `poly`; 0 for the zero polynomial.
fn max_key_len(poly: &Polynomial) -> (r: usize)
    ensures
        forall|k: Seq<u32>| #[trigger] poly@.contains_key(k) ==> k.len() <= r,
        r == 0 || exists|k: Seq<u32>| #[trigger] poly@.contains_key(k) && k.len() == r,
{
    proof {
        use_type_invariant(poly);
        crate::polynomial::lemma_seq_to_map(poly.term_seq());
    }
    let terms = poly.raw_iter();
    let ghost ts = poly.term_seq();
    let mut best: usize = 0;
    let mut t: usize = 0;
    while t < terms.len()
        invariant
            crate::polynomial::terms_view(terms@) == ts,
            t <= terms@.len(),
            forall|j: int| 0 <= j < t ==> (#[trigger] ts[j]).0.len() <= best,
            best == 0 || exists|j: int| 0 <= j < t && (#[trigger] ts[j]).0.len() == best,
        decreases terms@.len() - t,
    {
        assert(ts[t as int] == crate::polynomial::term_view(terms@[t as int]));
        let l = terms[t].0.len();
        if l > best {
            best = l;
        }
        t = t + 1;
    }
    proof {
        assert forall|k: Seq<u32>| #[trigger] poly@.contains_key(k) implies k.len() <= best by {
            let j = choose|j: int| 0 <= j < ts.len() && ts[j].0 == k;
            assert(ts[j].0.len() <= best);
        }
        if best != 0 {
            let j = choose|j: int| 0 <= j < ts.len() && (#[trigger] ts[j]).0.len() == best;
            assert(poly@.contains_key(ts[j].0));
        }
    }
    best
}

/// `r` is the greatest length of an exponent of an entry of the matrix (0
/// when there is none).
pub open spec fn is_max_exponent_len(matrix: Seq<Vec<Polynomial>>, r: int) -> bool {
    &&& forall|i: int, j: int, k: Seq<u32>|
        0 <= i < matrix.len() && 0 <= j < matrix[i]@.len() && #[trigger] matrix[i]@[j]@.contains_key(k) ==> k.len() <= r
    &&& r == 0 || exists|i: int, j: int, k: Seq<u32>|
        0 <= i < matrix.len() && 0 <= j < matrix[i]@.len() && #[trigger] matrix[i]@[j]@.contains_key(k) && k.len() == r
}

/// The greatest number of variables among the exponents of the matrix.
fn count_variables(matrix: &Vec<Vec<Polynomial>>) -> (r: usize)
    ensures
        is_max_exponent_len(matrix@, r as int),
{
    let mut best: usize = 0;
    let mut i: usize = 0;
    while i < matrix.len()
        invariant
            i <= matrix@.len(),
            is_max_exponent_len(matrix@.subrange(0, i as int), best as int),
        decreases matrix@.len() - i,
    {
        let ghost prev = best;
        proof {
            let old_sub = matrix@.subrange(0, i as int);
            assert forall|i2: int, j2: int, k: Seq<u32>|
                0 <= i2 < i && 0 <= j2 < matrix@[i2]@.len() && #[trigger] matrix@[i2]@[j2]@.contains_key(k) implies k.len()
                <= best by {
                assert(old_sub[i2] == matrix@[i2]);
                assert(old_sub[i2]@[j2]@.contains_key(k));
            }
        }
        let mut j: usize = 0;
        while j < matrix[i].len()
            invariant
                i < matrix@.len(),
                j <= matrix@[i as int]@.len(),
                prev <= best,
                is_max_exponent_len(matrix@.subrange(0, i as int), prev as int),
                forall|jj: int, k: Seq<u32>|
                    0 <= jj < j && #[trigger] matrix@[i as int]@[jj]@.contains_key(k) ==> k.len() <= best,
                forall|i2: int, j2: int, k: Seq<u32>|
                    0 <= i2 < i && 0 <= j2 < matrix@[i2]@.len() && #[trigger] matrix@[i2]@[j2]@.contains_key(k) ==> k.len()
                        <= best,
                best == prev || exists|jj: int, k: Seq<u32>|
                    0 <= jj < j && #[trigger] matrix@[i as int]@[jj]@.contains_key(k) && k.len() == best,
            decreases matrix@[i as int]@.len() - j,
        {
            let l = max_key_len(&matrix[i][j]);
            if l > best {
                best = l;
            }
            j = j + 1;
        }
        proof {
            let sub = matrix@.subrange(0, i + 1);
            let old_sub = matrix@.subrange(0, i as int);
            assert forall|i2: int, j2: int, k: Seq<u32>|
                0 <= i2 < sub.len() && 0 <= j2 < sub[i2]@.len() && #[trigger] sub[i2]@[j2]@.contains_key(k) implies k.len()
                <= best by {
                assert(sub[i2] == matrix@[i2]);
            }
            if best != 0 {
                if best == prev {
                    let (i2, j2, k) = choose|i2: int, j2: int, k: Seq<u32>|
                        0 <= i2 < old_sub.len() && 0 <= j2 < old_sub[i2]@.len() && #[trigger] old_sub[i2]@[j2]@.contains_key(k)
                            && k.len() == prev;
                    assert(sub[i2] == old_sub[i2]);
                    assert(sub[i2]@[j2]@.contains_key(k));
                } else {
                    let (jj, k) = choose|jj: int, k: Seq<u32>|
                        0 <= jj < matrix@[i as int]@.len() && #[trigger] matrix@[i as int]@[jj]@.contains_key(k) && k.len() == best;
                    assert(sub[i as int] == matrix@[i as int]);
                    assert(sub[i as int]@[jj]@.contains_key(k));
                }
            }
        }
        i = i + 1;
    }
    assert(matrix@.subrange(0, matrix@.len() as int) =~= matrix@);
    best
}

/// The product of `subst[v]^exps[v]` over the positions that both have.
fn monomial_at(exps: &Vec<u32>, subst: &Vec<u32>) -> (r: Rat)
    ensures
        r@ == term_value((exps@, qint(1)), subst@),
{
    let m = if exps.len() <= subst.len() {
        exps.len()
    } else {
        subst.len()
    };
    let mut value = Rat::from_i64(1);
    let mut v: usize = 0;
    while v < m
        invariant
            v <= m,
            m <= exps@.len(),
            m <= subst@.len(),
            value@ == monomial_factor(qint(1), exps@, subst@, v as nat),
        decreases m - v,
    {
        let power = Int::from_usize(subst[v] as usize).pow(exps[v]);
        value = value.mul(&Rat::from_integer(&power));
        v = v + 1;
    }
    value
}

/// `d` is the greatest exponent of variable `v` in `m`, 0 when there is none.
pub open spec fn is_var_degree(m: Map<Seq<u32>, Q>, v: int, d: int) -> bool {
    &&& d >= 0
    &&& forall|k: Seq<u32>| #[trigger] m.contains_key(k) ==> entry_or_zero(k, v) <= d
    &&& d == 0 || exists|k: Seq<u32>| #[trigger] m.contains_key(k) && entry_or_zero(k, v) == d
}

/// The greatest exponent of variable `v` in `m`, 0 when there is none.
pub open spec fn var_degree(m: Map<Seq<u32>, Q>, v: int) -> int {
    choose|d: int| is_var_degree(m, v, d)
}

proof fn lemma_var_degree(m: Map<Seq<u32>, Q>, v: int, d: int)
    requires
        is_var_degree(m, v, d),
    ensures
        var_degree(m, v) == d,
{
    let e = var_degree(m, v);
    assert(is_var_degree(m, v, e));
    if d != 0 {
        let k = choose|k: Seq<u32>| #[trigger] m.contains_key(k) && entry_or_zero(k, v) == d;
        assert(entry_or_zero(k, v) <= e);
    }
    if e != 0 {
        let k = choose|k: Seq<u32>| #[trigger] m.contains_key(k) && entry_or_zero(k, v) == e;
        assert(entry_or_zero(k, v) <= d);
    }
}

/// The greatest degree in variable `v` among the first `j` entries of row `i`.
pub open spec fn row_max(matrix: Seq<Vec<Polynomial>>, i: int, v: int, j: nat) -> int
    decreases j,
{
    if j == 0 {
        0
    } else {
        let a = row_max(matrix, i, v, (j - 1) as nat);
        let b = var_degree(matrix[i]@[j - 1]@, v);
        if b > a { b } else { a }
    }
}

/// The sum over the first `i` rows of their greatest degree in variable `v`.
pub open spec fn row_total(matrix: Seq<Vec<Polynomial>>, v: int, i: nat) -> int
    decreases i,
{
    if i == 0 {
        0
    } else {
        row_total(matrix, v, (i - 1) as nat) + row_max(matrix, i - 1, v, matrix[i - 1]@.len())
    }
}

/// The greatest degree in variable `v` among the first `r` entries of column `c`.
pub open spec fn col_max(matrix: Seq<Vec<Polynomial>>, c: int, v: int, r: nat) -> int
    decreases r,
{
    if r == 0 {
        0
    } else {
        let a = col_max(matrix, c, v, (r - 1) as nat);
        let b = var_degree(matrix[r - 1]@[c]@, v);
        if b > a { b } else { a }
    }
}

/// The sum over the first `c` columns of their greatest degree in variable
/// `v`, over all rows.
pub open spec fn col_total(matrix: Seq<Vec<Polynomial>>, v: int, c: nat) -> int
    decreases c,
{
    if c == 0 {
        0
    } else {
        col_total(matrix, v, (c - 1) as nat) + col_max(matrix, c - 1, v, matrix.len())
    }
}

proof fn lemma_row_max_nonneg(matrix: Seq<Vec<Polynomial>>, i: int, v: int, j: nat)
    ensures
        row_max(matrix, i, v, j) >= 0,
    decreases j,
{
    if j > 0 {
        lemma_row_max_nonneg(matrix, i, v, (j - 1) as nat);
    }
}

proof fn lemma_row_total_mono(matrix: Seq<Vec<Polynomial>>, v: int, i: nat, n: nat)
    requires
        i <= n,
    ensures
        row_total(matrix, v, i) <= row_total(matrix, v, n),
    decreases n,
{
    if i < n {
        lemma_row_total_mono(matrix, v, i, (n - 1) as nat);
        lemma_row_max_nonneg(matrix, n - 1, v, matrix[n - 1]@.len());
    }
}

proof fn lemma_col_max_nonneg(matrix: Seq<Vec<Polynomial>>, c: int, v: int, r: nat)
    ensures
        col_max(matrix, c, v, r) >= 0,
    decreases r,
{
    if r > 0 {
        lemma_col_max_nonneg(matrix, c, v, (r - 1) as nat);
    }
}

proof fn lemma_col_total_mono(matrix: Seq<Vec<Polynomial>>, v: int, c: nat, n: nat)
    requires
        c <= n,
    ensures
        col_total(matrix, v, c) <= col_total(matrix, v, n),
    decreases n,
{
    if c < n {
        lemma_col_total_mono(matrix, v, c, (n - 1) as nat);
        lemma_col_max_nonneg(matrix, n - 1, v, matrix.len());
    }
}

/// A bound on the degree of the determinant in variable `var`: the smaller
/// of the sums over rows, and over columns, of the greatest degree of an
/// entry in that variable; `None` when a sum leaves `u32`.
fn determinant_degree(matrix: &Vec<Vec<Polynomial>>, var: usize) -> (r: Option<u32>)
    requires
        forall|i: int| 0 <= i < matrix@.len() ==> (#[trigger] matrix@[i])@.len() == matrix@.len(),
    ensures
        r == if row_total(matrix@, var as int, matrix@.len()) > u32::MAX || col_total(matrix@, var as int, matrix@.len())
            > u32::MAX {
            None::<u32>
        } else if col_total(matrix@, var as int, matrix@.len()) <= row_total(matrix@, var as int, matrix@.len()) {
            Some(col_total(matrix@, var as int, matrix@.len()) as u32)
        } else {
            Some(row_total(matrix@, var as int, matrix@.len()) as u32)
        },
{
    let n = matrix.len();
    let ghost mv = matrix@;
    let ghost v = var as int;
    let mut row_sum: u32 = 0;
    let mut i: usize = 0;
    while i < n
        invariant
            n == matrix@.len(),
            mv == matrix@,
            v == var as int,
            i <= n,
            row_sum == row_total(mv, v, i as nat),
        decreases n - i,
    {
        let mut best: u32 = 0;
        let mut j: usize = 0;
        while j < matrix[i].len()
            invariant
                i < n,
                n == matrix@.len(),
                mv == matrix@,
                v == var as int,
                j <= matrix@[i as int]@.len(),
                best == row_max(mv, i as int, v, j as nat),
            decreases matrix@[i as int]@.len() - j,
        {
            let d = degree_of_variable(&matrix[i][j], var);
            proof {
                lemma_var_degree(mv[i as int]@[j as int]@, v, d as int);
            }
            if d > best {
                best = d;
            }
            j = j + 1;
        }
        row_sum = match row_sum.checked_add(best) {
            Some(s) => s,
            None => {
                proof {
                    lemma_row_total_mono(mv, v, (i + 1) as nat, n as nat);
                }
                return None;
            },
        };
        i = i + 1;
    }
    let mut col_sum: u32 = 0;
    let mut col: usize = 0;
    while col < n
        invariant
            n == matrix@.len(),
            mv == matrix@,
            v == var as int,
            forall|s: int| 0 <= s < matrix@.len() ==> (#[trigger] matrix@[s])@.len() == matrix@.len(),
            col <= n,
            col_sum == col_total(mv, v, col as nat),
            row_sum == row_total(mv, v, n as nat),
        decreases n - col,
    {
        let mut best: u32 = 0;
        let mut row: usize = 0;
        while row < n
            invariant
                n == matrix@.len(),
                mv == matrix@,
                v == var as int,
                forall|s: int| 0 <= s < matrix@.len() ==> (#[trigger] matrix@[s])@.len() == matrix@.len(),
                col < n,
                row <= n,
                best == col_max(mv, col as int, v, row as nat),
            decreases n - row,
        {
            assert(matrix@[row as int]@.len() == n);
            let d = degree_of_variable(&matrix[row][col], var);
            proof {
                lemma_var_degree(mv[row as int]@[col as int]@, v, d as int);
            }
            if d > best {
                best = d;
            }
            row = row + 1;
        }
        col_sum = match col_sum.checked_add(best) {
            Some(s) => s,
            None => {
                proof {
                    lemma_col_total_mono(mv, v, (col + 1) as nat, n as nat);
                }
                return None;
            },
        };
        col = col + 1;
    }
    Some(
        if col_sum <= row_sum {
            col_sum
        } else {
            row_sum
        },
    )
}

/// The greatest length of an exponent of an entry of the matrix.
pub open spec fn max_exponent_len(matrix: Seq<Vec<Polynomial>>) -> int {
    choose|r: int| is_max_exponent_len(matrix, r)
}

proof fn lemma_max_exponent_len(matrix: Seq<Vec<Polynomial>>, r: int)
    requires
        is_max_exponent_len(matrix, r),
    ensures
        max_exponent_len(matrix) == r,
{
    let e = max_exponent_len(matrix);
    assert(is_max_exponent_len(matrix, e));
    if r != 0 {
        let (i, j, k) = choose|i: int, j: int, k: Seq<u32>|
            0 <= i < matrix.len() && 0 <= j < matrix[i]@.len() && #[trigger] matrix[i]@[j]@.contains_key(k) && k.len() == r;
        assert(k.len() <= e);
    }
    if e != 0 {
        let (i, j, k) = choose|i: int, j: int, k: Seq<u32>|
            0 <= i < matrix.len() && 0 <= j < matrix[i]@.len() && #[trigger] matrix[i]@[j]@.contains_key(k) && k.len() == e;
        assert(k.len() <= r);
    }
}

/// Every degree bound of the first `nv` variables fits in `u32`.
pub open spec fn degrees_fit(matrix: Seq<Vec<Polynomial>>, nv: int) -> bool {
    forall|v: int|
        0 <= v < nv ==> #[trigger] row_total(matrix, v, matrix.len()) <= u32::MAX && col_total(matrix, v, matrix.len())
            <= u32::MAX
}

/// The degree bounds of the first `nv` variables.
pub open spec fn det_degrees(matrix: Seq<Vec<Polynomial>>, nv: int) -> Seq<u32> {
    Seq::new(
        nv as nat,
        |v: int|
            if col_total(matrix, v, matrix.len()) <= row_total(matrix, v, matrix.len()) {
                col_total(matrix, v, matrix.len()) as u32
            } else {
                row_total(matrix, v, matrix.len()) as u32
            },
    )
}

/// The matrix evaluated at the point `x`.
pub open spec fn eval_matrix(matrix: Seq<Vec<Polynomial>>, x: Seq<u32>) -> Seq<Seq<Q>> {
    Seq::new(
        matrix.len(),
        |r: int| Seq::new(matrix.len(), |c: int| sum_values(matrix[r]@[c].term_seq(), x)),
    )
}

/// The values of the monomials of the points at each point.
pub open spec fn monomial_matrix(pts: Seq<Seq<u32>>) -> Seq<Seq<Q>> {
    Seq::new(pts.len(), |s: int| Seq::new(pts.len(), |e: int| term_value((pts[e], qint(1)), pts[s])))
}

/// The determinants of the matrix evaluated at each point.
pub open spec fn point_dets(matrix: Seq<Vec<Polynomial>>, pts: Seq<Seq<u32>>) -> Seq<Q> {
    Seq::new(pts.len(), |s: int| gauss_det(eval_matrix(matrix, pts[s])))
}

/// The points for the matrix: the grid of its degree bounds.
pub open spec fn det_points(matrix: Seq<Vec<Polynomial>>) -> Seq<Seq<u32>> {
    grid(det_degrees(matrix, max_exponent_len(matrix)))
}

/// The terms with the points as exponents and `cs` as coefficients.
pub open spec fn point_terms(pts: Seq<Seq<u32>>, cs: Seq<Q>) -> Seq<(Seq<u32>, Q)> {
    Seq::new(pts.len(), |t: int| (pts[t], cs[t]))
}

/// The determinant of a square matrix of polynomials: a bound on its degree
/// in each variable is taken (`det_degrees`), the matrix evaluated at every
/// point of the grid of those degrees, the determinants of the values taken
/// (`gauss_det`), and the coefficients of the determinant solved for from
/// them (`solve_linear_system`). `None` when the matrix is not square, when
/// a degree bound leaves `u32`, or when the system for the coefficients has
/// no checked solution.
pub fn polynomial_matrix_determinant(matrix: Vec<Vec<Polynomial>>) -> (r: Option<Polynomial>)
    ensures
        (exists|i: int| 0 <= i < matrix@.len() && (#[trigger] matrix@[i])@.len() != matrix@.len()) ==> r is None,
        (forall|i: int| 0 <= i < matrix@.len() ==> (#[trigger] matrix@[i])@.len() == matrix@.len()) ==> (r is Some <==> (
        degrees_fit(matrix@, max_exponent_len(matrix@)) && (gj_iter(
            monomial_matrix(det_points(matrix@)),
            point_dets(matrix@, det_points(matrix@)),
            det_points(matrix@).len(),
        ) matches Some(st) && solves(
            monomial_matrix(det_points(matrix@)),
            point_dets(matrix@, det_points(matrix@)),
            st.1,
        )))),
        r matches Some(p) ==> gj_iter(
            monomial_matrix(det_points(matrix@)),
            point_dets(matrix@, det_points(matrix@)),
            det_points(matrix@).len(),
        ) matches Some(st) && p@ == map_add_terms(Map::<Seq<u32>, Q>::empty(), point_terms(det_points(matrix@), st.1)),
{
    let ghost m = matrix@;
    let n = matrix.len();
    let mut i: usize = 0;
    while i < n
        invariant
            n == matrix@.len(),
            i <= n,
            forall|s: int| 0 <= s < i ==> (#[trigger] matrix@[s])@.len() == n,
        decreases n - i,
    {
        if matrix[i].len() != n {
            return None;
        }
        i = i + 1;
    }
    let num_variables = count_variables(&matrix);
    proof {
        lemma_max_exponent_len(m, num_variables as int);
    }
    let ghost nv = num_variables as int;
    let mut degrees: Vec<u32> = Vec::new();
    let mut var: usize = 0;
    while var < num_variables
        invariant
            n == matrix@.len(),
            m == matrix@,
            nv == num_variables,
            max_exponent_len(m) == nv,
            forall|s: int| 0 <= s < n ==> (#[trigger] matrix@[s])@.len() == n,
            var <= num_variables,
            degrees@ == det_degrees(m, nv).subrange(0, var as int),
            degrees_fit(m, var as int),
        decreases num_variables - var,
    {
        match determinant_degree(&matrix, var) {
            Some(d) => {
                let ghost prev = degrees@;
                degrees.push(d);
                proof {
                    assert(degrees@ =~= det_degrees(m, nv).subrange(0, var + 1));
                    assert forall|v: int| 0 <= v < var + 1 implies #[trigger] row_total(m, v, m.len()) <= u32::MAX && col_total(
                        m,
                        v,
                        m.len(),
                    ) <= u32::MAX by {
                        if v < var {
                        }
                    }
                }
            },
            None => {
                proof {
                    assert(!degrees_fit(m, nv)) by {
                        assert(0 <= var < nv);
                        assert(!(row_total(m, var as int, m.len()) <= u32::MAX && col_total(m, var as int, m.len()) <= u32::MAX));
                    }
                }
                return None;
            },
        }
        var = var + 1;
    }
    assert(degrees@ =~= det_degrees(m, nv));
    let points = degree_grid(degrees.as_slice());
    let ghost pts = vec_views(points@);
    assert(pts == det_points(m));
    let mut coefficient_matrix: Vec<Vec<Rat>> = Vec::new();
    let mut constant_terms: Vec<Rat> = Vec::new();
    let mut s: usize = 0;
    while s < points.len()
        invariant
            n == matrix@.len(),
            m == matrix@,
            forall|t: int| 0 <= t < n ==> (#[trigger] matrix@[t])@.len() == n,
            pts == vec_views(points@),
            s <= points@.len(),
            matrix_view(coefficient_matrix@) == monomial_matrix(pts).subrange(0, s as int),
            rat_values(constant_terms@) == point_dets(m, pts).subrange(0, s as int),
        decreases points@.len() - s,
    {
        let subst = &points[s];
        assert(pts[s as int] == subst@);
        let ghost em = eval_matrix(m, subst@);
        let mut rational_matrix: Vec<Vec<Rat>> = Vec::new();
        let mut row: usize = 0;
        while row < n
            invariant
                n == matrix@.len(),
                m == matrix@,
                em == eval_matrix(m, subst@),
                forall|t: int| 0 <= t < n ==> (#[trigger] matrix@[t])@.len() == n,
                row <= n,
                rational_matrix@.len() == row,
                forall|t: int| 0 <= t < row ==> (#[trigger] rational_matrix@[t])@.len() == n,
                matrix_view(rational_matrix@) == em.subrange(0, row as int),
            decreases n - row,
        {
            let mut values: Vec<Rat> = Vec::new();
            let mut col: usize = 0;
            while col < n
                invariant
                    n == matrix@.len(),
                    m == matrix@,
                    em == eval_matrix(m, subst@),
                    row < n,
                    matrix@[row as int]@.len() == n,
                    col <= n,
                    values@.len() == col,
                    rat_values(values@) == em[row as int].subrange(0, col as int),
                decreases n - col,
            {
                let ghost prev = values@;
                values.push(substitute_polynomial(&matrix[row][col], subst.as_slice()));
                proof {
                    assert(rat_values(values@) =~= rat_values(prev).push(values@[col as int]@));
                    assert(rat_values(values@) =~= em[row as int].subrange(0, col + 1));
                }
                col = col + 1;
            }
            assert(em[row as int].subrange(0, n as int) =~= em[row as int]);
            let ghost prevm = rational_matrix@;
            rational_matrix.push(values);
            proof {
                assert(matrix_view(rational_matrix@) =~= matrix_view(prevm).push(rat_values(values@)));
                assert(matrix_view(rational_matrix@) =~= em.subrange(0, row + 1));
            }
            row = row + 1;
        }
        assert(em.subrange(0, n as int) =~= em);
        proof {
            let mv = matrix_view(rational_matrix@);
            assert forall|t: int| 0 <= t < mv.len() implies (#[trigger] mv[t]).len() >= mv.len() by {
                assert(mv[t] == rat_values(rational_matrix@[t]@));
            }
        }
        let det = determinant(rational_matrix.as_slice());
        let ghost trow = monomial_matrix(pts)[s as int];
        let mut terms: Vec<Rat> = Vec::new();
        let mut e: usize = 0;
        while e < points.len()
            invariant
                e <= points@.len(),
                pts == vec_views(points@),
                s < points@.len(),
                subst@ == pts[s as int],
                trow == monomial_matrix(pts)[s as int],
                rat_values(terms@) == trow.subrange(0, e as int),
            decreases points@.len() - e,
        {
            let ghost prev = terms@;
            assert(pts[e as int] == points@[e as int]@);
            terms.push(monomial_at(&points[e], subst));
            proof {
                assert(rat_values(terms@) =~= rat_values(prev).push(trow[e as int]));
                assert(rat_values(terms@) =~= trow.subrange(0, e + 1));
            }
            e = e + 1;
        }
        assert(trow.subrange(0, points@.len() as int) =~= trow);
        let ghost pc = coefficient_matrix@;
        let ghost pt = constant_terms@;
        coefficient_matrix.push(terms);
        constant_terms.push(det);
        proof {
            assert(matrix_view(coefficient_matrix@) =~= matrix_view(pc).push(trow));
            assert(matrix_view(coefficient_matrix@) =~= monomial_matrix(pts).subrange(0, s + 1));
            assert(rat_values(constant_terms@) =~= rat_values(pt).push(gauss_det(em)));
            assert(rat_values(constant_terms@) =~= point_dets(m, pts).subrange(0, s + 1));
        }
        s = s + 1;
    }
    assert(monomial_matrix(pts).subrange(0, pts.len() as int) =~= monomial_matrix(pts));
    assert(point_dets(m, pts).subrange(0, pts.len() as int) =~= point_dets(m, pts));
    let ghost am = monomial_matrix(pts);
    let ghost dv = point_dets(m, pts);
    assert(pts.len() == points@.len());
    assert(matrix_view(coefficient_matrix@) == am);
    assert(rat_values(constant_terms@) == dv);
    assert(coefficient_matrix@.len() == pts.len());
    assert(square_system(am, dv));
    assert(degrees_fit(m, nv));
    assert(pts == det_points(m));
    let coefficients = match solve_linear_system(coefficient_matrix.as_slice(), constant_terms.as_slice()) {
        Some(c) => c,
        None => {
            return None;
        },
    };
    let ghost cs = rat_values(coefficients@);
    let ghost terms_spec = point_terms(pts, cs);
    let mut result = Polynomial::zero();
    assert(terms_spec.subrange(0, 0) =~= Seq::<(Seq<u32>, Q)>::empty());
    let mut t: usize = 0;
    while t < points.len() && t < coefficients.len()
        invariant
            t <= points@.len(),
            pts == vec_views(points@),
            cs == rat_values(coefficients@),
            cs.len() == pts.len(),
            terms_spec == point_terms(pts, cs),
            result@ == map_add_terms(Map::<Seq<u32>, Q>::empty(), terms_spec.subrange(0, t as int)),
        decreases points@.len() - t,
    {
        let mut exps: Vec<u32> = Vec::new();
        let mut k: usize = 0;
        while k < points[t].len()
            invariant
                t < points@.len(),
                k <= points@[t as int]@.len(),
                exps@ == points@[t as int]@.subrange(0, k as int),
            decreases points@[t as int]@.len() - k,
        {
            exps.push(points[t][k]);
            k = k + 1;
            assert(exps@ =~= points@[t as int]@.subrange(0, k as int));
        }
        assert(points@[t as int]@.subrange(0, points@[t as int]@.len() as int) =~= points@[t as int]@);
        assert(pts[t as int] == points@[t as int]@);
        assert(cs[t as int] == coefficients@[t as int]@);
        result.add_term(Exponent::new(exps), coefficients[t].duplicate());
        proof {
            let sub = terms_spec.subrange(0, t + 1);
            assert(sub.drop_last() =~= terms_spec.subrange(0, t as int));
            assert(sub.last() == (pts[t as int], cs[t as int]));
        }
        t = t + 1;
    }
    assert(terms_spec.subrange(0, pts.len() as int) =~= terms_spec);
    Some(result)
}

} // verus!
