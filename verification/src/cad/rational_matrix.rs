//! Determinants of matrices whose entries are constant polynomials.
use crate::linear_algebra::matrix_view;
use crate::nonempty::rat_values;
use crate::cad::polynomial_matrix::{pivot_from, swap_entries};
use crate::number::{
    gcd, iabs, lemma_qnorm_value, lemma_qnorm_zero, qabs, qcanon, qdiv, qint, qlt, qmul, qneg, qnorm, qsub, Q, Rat,
};
use crate::polynomial::{is_constant_map, Polynomial};
use vstd::prelude::*;

verus! {

/// `cs` holds the constants that the entries of `m` are.
pub open spec fn constants_of(m: Seq<Vec<Polynomial>>, cs: Seq<Seq<Q>>) -> bool {
    &&& cs.len() == m.len()
    &&& forall|i: int| 0 <= i < m.len() ==> (#[trigger] cs[i]).len() == m[i]@.len()
    &&& forall|i: int, j: int| 0 <= i < m.len() && 0 <= j < m[i]@.len() ==> is_constant_map(#[trigger] m[i]@[j]@, cs[i][j])
}

/// The polynomial is not a constant.
pub open spec fn nonconstant(p: Map<Seq<u32>, Q>) -> bool {
    forall|c: Q| !is_constant_map(p, c)
}

/// Some entry of `m` is not a constant.
pub open spec fn has_nonconstant(m: Seq<Vec<Polynomial>>) -> bool {
    exists|i: int, j: int| 0 <= i < m.len() && 0 <= j < m[i]@.len() && nonconstant(#[trigger] m[i]@[j]@)
}

/// The matrix of constants that a matrix of constant polynomials is; `None`
/// when an entry is not a constant.
fn polynomial_matrix_to_rational_matrix(matrix: Vec<Vec<Polynomial>>) -> (r: Option<Vec<Vec<Rat>>>)
    ensures
        r is None <==> has_nonconstant(matrix@),
        r matches Some(cs) ==> constants_of(matrix@, matrix_view(cs@)),
{
    let mut out: Vec<Vec<Rat>> = Vec::new();
    let mut i: usize = 0;
    while i < matrix.len()
        invariant
            i <= matrix@.len(),
            out@.len() == i,
            forall|t: int| 0 <= t < i ==> (#[trigger] out@[t])@.len() == matrix@[t]@.len(),
            forall|t: int, j: int|
                0 <= t < i && 0 <= j < matrix@[t]@.len() ==> is_constant_map(#[trigger] matrix@[t]@[j]@, out@[t]@[j]@),
        decreases matrix@.len() - i,
    {
        let row = &matrix[i];
        let mut out_row: Vec<Rat> = Vec::new();
        let mut j: usize = 0;
        while j < row.len()
            invariant
                i < matrix@.len(),
                *row == matrix@[i as int],
                j <= row@.len(),
                out_row@.len() == j,
                forall|k: int| 0 <= k < j ==> is_constant_map(#[trigger] row@[k]@, out_row@[k]@),
            decreases row@.len() - j,
        {
            match row[j].as_constant() {
                Some(c) => {
                    out_row.push(c);
                },
                None => {
                    proof {
                        assert(nonconstant(matrix@[i as int]@[j as int]@));
                        assert(has_nonconstant(matrix@));
                    }
                    return None;
                },
            }
            j = j + 1;
        }
        out.push(out_row);
        i = i + 1;
    }
    proof {
        let mv = matrix_view(out@);
        assert forall|t: int| 0 <= t < matrix@.len() implies (#[trigger] mv[t]).len() == matrix@[t]@.len() by {
            assert(mv[t] == rat_values(out@[t]@));
        }
        assert forall|t: int, j: int| 0 <= t < matrix@.len() && 0 <= j < matrix@[t]@.len() implies is_constant_map(
            #[trigger] matrix@[t]@[j]@,
            mv[t][j],
        ) by {
            assert(mv[t] == rat_values(out@[t]@));
        }
        if has_nonconstant(matrix@) {
            let (t, j) = choose|t: int, j: int|
                0 <= t < matrix@.len() && 0 <= j < matrix@[t]@.len() && nonconstant(#[trigger] matrix@[t]@[j]@);
            assert(is_constant_map(matrix@[t]@[j]@, out@[t]@[j]@));
        }
    }
    Some(out)
}

/// Every row of `m` has at least `m.len()` entries.
pub open spec fn rows_cover(m: Seq<Seq<Q>>) -> bool {
    forall|i: int| 0 <= i < m.len() ==> (#[trigger] m[i]).len() >= m.len()
}

/// A copy of a row.
pub(crate) fn copy_row(row: &Vec<Rat>) -> (r: Vec<Rat>)
    ensures
        rat_values(r@) == rat_values(row@),
{
    let mut out: Vec<Rat> = Vec::new();
    let mut k: usize = 0;
    while k < row.len()
        invariant
            k <= row@.len(),
            rat_values(out@) == rat_values(row@).subrange(0, k as int),
        decreases row@.len() - k,
    {
        let ghost prev = out@;
        let x = row[k].duplicate();
        out.push(x);
        proof {
            assert(out@ == prev.push(x));
            assert(rat_values(out@) =~= rat_values(prev).push(x@));
            assert(rat_values(row@)[k as int] == row@[k as int]@);
        }
        k = k + 1;
        assert(rat_values(out@) =~= rat_values(row@).subrange(0, k as int));
    }
    assert(rat_values(row@).subrange(0, row@.len() as int) =~= rat_values(row@));
    out
}

/// Exchanges rows `i` and `j`.
fn swap_rows(mat: &mut Vec<Vec<Rat>>, i: usize, j: usize)
    requires
        i < old(mat)@.len(),
        j < old(mat)@.len(),
    ensures
        final(mat)@.len() == old(mat)@.len(),
        matrix_view(final(mat)@) == matrix_view(old(mat)@).update(i as int, matrix_view(old(mat)@)[j as int]).update(
            j as int,
            matrix_view(old(mat)@)[i as int],
        ),
{
    let ghost before = matrix_view(mat@);
    let ri = copy_row(&mat[i]);
    let rj = copy_row(&mat[j]);
    mat.set(i, rj);
    mat.set(j, ri);
    proof {
        assert(before[i as int] == rat_values(old(mat)@[i as int]@));
        assert(before[j as int] == rat_values(old(mat)@[j as int]@));
        assert(matrix_view(mat@) =~= before.update(i as int, before[j as int]).update(j as int, before[i as int]));
    }
}

/// Row `t` minus `f` times row `s`, entry by entry from position `from` on
/// (as far as both rows go); the earlier entries kept.
pub open spec fn minus_scaled(t: Seq<Q>, s: Seq<Q>, f: Q, from: int) -> Seq<Q> {
    Seq::new(t.len(), |k: int| if from <= k < s.len() { qsub(t[k], qmul(f, s[k])) } else { t[k] })
}

/// Row `target` minus `factor` times row `source`, entry by entry from
/// position `from` on (as far as both rows go); the earlier entries kept.
pub(crate) fn row_minus_scaled(target: &Vec<Rat>, source: &Vec<Rat>, factor: &Rat, from: usize) -> (r: Vec<Rat>)
    ensures
        r@.len() == target@.len(),
        rat_values(r@) == minus_scaled(rat_values(target@), rat_values(source@), factor@, from as int),
{
    let ghost want = minus_scaled(rat_values(target@), rat_values(source@), factor@, from as int);
    let mut out: Vec<Rat> = Vec::new();
    let mut k: usize = 0;
    while k < target.len()
        invariant
            k <= target@.len(),
            out@.len() == k,
            want == minus_scaled(rat_values(target@), rat_values(source@), factor@, from as int),
            rat_values(out@) == want.subrange(0, k as int),
        decreases target@.len() - k,
    {
        let ghost prev = out@;
        if k >= from && k < source.len() {
            out.push(target[k].sub(&factor.mul(&source[k])));
        } else {
            out.push(target[k].duplicate());
        }
        proof {
            assert(rat_values(out@) =~= rat_values(prev).push(out@[k as int]@));
            assert(rat_values(out@) =~= want.subrange(0, k + 1));
        }
        k = k + 1;
    }
    assert(want.subrange(0, target@.len() as int) =~= want);
    out
}

/// One step of the determinant at column `i`: the row with the entry of
/// greatest absolute value swapped up (negating `d`), `d` multiplied by that
/// pivot, and the column cleared in the rows below; `None` when the pivot is
/// zero.
pub open spec fn det_step(m: Seq<Seq<Q>>, d: Q, i: int) -> Option<(Seq<Seq<Q>>, Q)> {
    let p = pivot_from(m, i, (i + 1) as nat, i);
    if m[p][i].n == 0 {
        None
    } else {
        let m1 = swap_entries(m, i, p);
        let d1 = if p != i { qneg(d) } else { d };
        Some(
            (
                Seq::new(
                    m.len(),
                    |j: int| if j > i { minus_scaled(m1[j], m1[i], qdiv(m1[j][i], m1[i][i]), i) } else { m1[j] },
                ),
                qmul(d1, m1[i][i]),
            ),
        )
    }
}

/// The matrix and the running product after the steps at columns `0..i`.
pub open spec fn det_iter(m: Seq<Seq<Q>>, i: nat) -> Option<(Seq<Seq<Q>>, Q)>
    decreases i,
{
    if i == 0 {
        Some((m, qint(1)))
    } else {
        match det_iter(m, (i - 1) as nat) {
            None => None,
            Some(st) => det_step(st.0, st.1, i - 1),
        }
    }
}

/// The determinant computed by Gaussian elimination with the pivot of
/// greatest absolute value: 1 for no rows, the entry for one, 0 when a
/// column has no non-zero pivot left.
pub open spec fn gauss_det(m: Seq<Seq<Q>>) -> Q {
    if m.len() == 0 {
        qint(1)
    } else if m.len() == 1 {
        m[0][0]
    } else {
        match det_iter(m, m.len()) {
            None => qint(0),
            Some(st) => st.1,
        }
    }
}

/// `m` has `n` rows, each with at least `n` entries, and every entry of
/// the first `n` columns has a positive denominator.
pub open spec fn square_rows(m: Seq<Seq<Q>>, n: nat) -> bool {
    &&& m.len() == n
    &&& forall|r: int| 0 <= r < n ==> (#[trigger] m[r]).len() >= n
    &&& forall|r: int, c: int| 0 <= r < n && 0 <= c < n ==> (#[trigger] m[r][c]).d > 0
}

/// Every entry below the diagonal in the first `k` columns is zero.
pub open spec fn zero_below(m: Seq<Seq<Q>>, k: int) -> bool {
    forall|r: int, c: int| 0 <= c < k && c < r < m.len() ==> (#[trigger] m[r][c]).n == 0
}

/// Subtracting `a / b` times `b` from `a` leaves zero.
proof fn lemma_cancel(a: Q, b: Q)
    requires
        a.d > 0,
        b.d > 0,
        b.n != 0,
    ensures
        qsub(a, qmul(qdiv(a, b), b)).n == 0,
{
    let c = qdiv(a, b);
    let cn = a.n * b.d;
    let cd = a.d * b.n;
    assert(cd != 0) by (nonlinear_arith)
        requires
            a.d > 0,
            b.n != 0,
            cd == a.d * b.n,
    ;
    lemma_qnorm_value(cn, cd);
    assert(c == qnorm(cn, cd));
    let e = qmul(c, b);
    let en = c.n * b.n;
    let ed = c.d * b.d;
    assert(ed > 0) by (nonlinear_arith)
        requires
            c.d > 0,
            b.d > 0,
            ed == c.d * b.d,
    ;
    lemma_qnorm_value(en, ed);
    assert(e == qnorm(en, ed));
    assert(a.n * e.d == e.n * a.d) by (nonlinear_arith)
        requires
            c.n * cd == cn * c.d,
            cn == a.n * b.d,
            cd == a.d * b.n,
            e.n * ed == en * e.d,
            en == c.n * b.n,
            ed == c.d * b.d,
            c.d > 0,
            b.d > 0,
            e.d > 0,
            a.d > 0,
    {
        assert(e.n * a.d * (c.d * b.d) == c.n * b.n * e.d * a.d);
        assert(c.n * b.n * e.d * a.d == (c.n * (a.d * b.n)) * e.d);
        assert((c.n * (a.d * b.n)) * e.d == a.n * b.d * c.d * e.d);
        assert(e.n * a.d * (c.d * b.d) == a.n * e.d * (c.d * b.d));
    }
    let sd = a.d * e.d;
    assert(sd > 0) by (nonlinear_arith)
        requires
            a.d > 0,
            e.d > 0,
            sd == a.d * e.d,
    ;
    lemma_qnorm_zero(a.n * e.d - e.n * a.d, sd);
}

/// The pivot is taken among the rows from `i` on.
proof fn lemma_pivot_range(m: Seq<Seq<Q>>, i: int, j: nat, cur: int)
    requires
        0 <= i <= cur < m.len(),
        i < j,
    ensures
        i <= pivot_from(m, i, j, cur) < m.len(),
    decreases m.len() - j,
{
    if j < m.len() {
        lemma_pivot_range(m, i, j + 1, if qlt(qabs(m[cur][i]), qabs(m[j as int][i])) { j as int } else { cur });
    }
}

/// One elimination step at column `i` keeps the shape and clears column `i`
/// below the diagonal, keeping the earlier columns clear.
proof fn lemma_det_step_clears(m: Seq<Seq<Q>>, d: Q, i: int, n: nat)
    requires
        square_rows(m, n),
        zero_below(m, i),
        0 <= i < n,
    ensures
        det_step(m, d, i) matches Some(st) ==> square_rows(st.0, n) && zero_below(st.0, i + 1),
{
    let p = pivot_from(m, i, (i + 1) as nat, i);
    lemma_pivot_range(m, i, (i + 1) as nat, i);
    if m[p][i].n != 0 {
        let m1 = swap_entries(m, i, p);
        assert(square_rows(m1, n)) by {
            assert forall|r: int| 0 <= r < n implies (#[trigger] m1[r]).len() >= n by {
                if r == i {
                    assert(m1[r] == m[p]);
                } else if r == p {
                    assert(m1[r] == m[i]);
                } else {
                    assert(m1[r] == m[r]);
                }
            }
            assert forall|r: int, c: int| 0 <= r < n && 0 <= c < n implies (#[trigger] m1[r][c]).d > 0 by {
                if r == i {
                    assert(m1[r] == m[p]);
                } else if r == p {
                    assert(m1[r] == m[i]);
                } else {
                    assert(m1[r] == m[r]);
                }
            }
        }
        assert(zero_below(m1, i)) by {
            assert forall|r: int, c: int| 0 <= c < i && c < r < m1.len() implies (#[trigger] m1[r][c]).n == 0 by {
                if r == i {
                    assert(m1[r] == m[p]);
                    assert(m[p][c].n == 0);
                } else if r == p {
                    assert(m1[r] == m[i]);
                    assert(m[i][c].n == 0);
                } else {
                    assert(m1[r] == m[r]);
                }
            }
        }
        assert(m1[i][i] == m[p][i]);
        let m2 = Seq::new(
            m.len(),
            |j: int| if j > i { minus_scaled(m1[j], m1[i], qdiv(m1[j][i], m1[i][i]), i) } else { m1[j] },
        );
        assert forall|r: int| 0 <= r < n implies (#[trigger] m2[r]).len() >= n by {}
        assert forall|r: int, c: int| 0 <= r < n && 0 <= c < n implies (#[trigger] m2[r][c]).d > 0 by {
            if r > i && c >= i {
                let a = m1[r][c];
                let f = qdiv(m1[r][i], m1[i][i]);
                let b = qmul(f, m1[i][c]);
                let fd = m1[r][i].d * m1[i][i].n;
                assert(fd != 0) by (nonlinear_arith)
                    requires
                        m1[r][i].d > 0,
                        m1[i][i].n != 0,
                        fd == m1[r][i].d * m1[i][i].n,
                ;
                lemma_qnorm_value(m1[r][i].n * m1[i][i].d, fd);
                let bd = f.d * m1[i][c].d;
                assert(bd > 0) by (nonlinear_arith)
                    requires
                        f.d > 0,
                        m1[i][c].d > 0,
                        bd == f.d * m1[i][c].d,
                ;
                lemma_qnorm_value(f.n * m1[i][c].n, bd);
                let sd = a.d * b.d;
                assert(sd > 0) by (nonlinear_arith)
                    requires
                        a.d > 0,
                        b.d > 0,
                        sd == a.d * b.d,
                ;
                lemma_qnorm_value(a.n * b.d - b.n * a.d, sd);
            }
        }
        assert forall|r: int, c: int| 0 <= c < i + 1 && c < r < m2.len() implies (#[trigger] m2[r][c]).n == 0 by {
            if c == i {
                lemma_cancel(m1[r][i], m1[i][i]);
                assert(qmul(qdiv(m1[r][i], m1[i][i]), m1[i][i]) == qmul(qdiv(m1[r][i], m1[i][i]), m1[i][i]));
            }
        }
    }
}

/// The steps at the columns `0..k` keep the shape and clear those columns
/// below the diagonal.
proof fn lemma_det_iter_clears(m: Seq<Seq<Q>>, k: nat, n: nat)
    requires
        square_rows(m, n),
        k <= n,
    ensures
        det_iter(m, k) matches Some(st) ==> square_rows(st.0, n) && zero_below(st.0, k as int),
    decreases k,
{
    if k > 0 {
        lemma_det_iter_clears(m, (k - 1) as nat, n);
        match det_iter(m, (k - 1) as nat) {
            None => {},
            Some(st) => {
                lemma_det_step_clears(st.0, st.1, k - 1, n);
            },
        }
    }
}

/// Gaussian elimination ends in an upper triangular matrix: when every
/// column has a non-zero pivot, the matrix after the steps at all columns
/// (whose diagonal entries `gauss_det` multiplies, with a sign for each row
/// exchange) has only zeros below its diagonal.
pub proof fn lemma_elimination_upper_triangular(m: Seq<Seq<Q>>)
    requires
        square_rows(m, m.len()),
    ensures
        det_iter(m, m.len()) matches Some(st) ==> square_rows(st.0, m.len()) && zero_below(st.0, m.len() as int),
{
    lemma_det_iter_clears(m, m.len(), m.len());
}

/// The product of the diagonal entries `0..k`, starting from 1.
pub open spec fn diag_product(m: Seq<Seq<Q>>, k: nat) -> Q
    decreases k,
{
    if k == 0 {
        qint(1)
    } else {
        qmul(diag_product(m, (k - 1) as nat), m[k - 1][k - 1])
    }
}

/// A reduced fraction is its own reduced form.
proof fn lemma_qnorm_canon(q: Q)
    requires
        qcanon(q),
    ensures
        qnorm(q.n, q.d) == q,
{
    assert(iabs(q.d) == q.d);
    assert(gcd(iabs(q.n), iabs(q.d)) == 1);
    assert(q.n / 1 == q.n);
    assert(q.d / 1 == q.d);
}

/// Zero over any non-zero denominator reduces to `0 / 1`.
proof fn lemma_qnorm_zero_is_zero(d: int)
    requires
        d != 0,
    ensures
        qnorm(0, d) == qint(0),
{
    let ad = iabs(d) as int;
    assert(ad > 0);
    assert((0nat % (ad as nat)) == 0) by (nonlinear_arith)
        requires
            ad > 0,
    ;
    assert(gcd(0, ad as nat) == gcd(ad as nat, 0nat % (ad as nat)));
    assert(gcd(0, ad as nat) == ad);
    assert(0int / ad == 0) by (nonlinear_arith)
        requires
            ad > 0,
    ;
    if d < 0 {
        assert(ad == -d);
        assert(d / ad == -1) by (nonlinear_arith)
            requires
                ad == -d,
                ad > 0,
        ;
    } else {
        assert(d / ad == 1) by (nonlinear_arith)
            requires
                ad == d,
                ad > 0,
        ;
    }
}

/// In column `i` of a matrix with zeros below the diagonal, the pivot search
/// keeps the diagonal entry when it is not zero.
proof fn lemma_pivot_diagonal(m: Seq<Seq<Q>>, i: int, j: nat, n: nat)
    requires
        square_rows(m, n),
        zero_below(m, n as int),
        0 <= i < n,
        i < j,
    ensures
        pivot_from(m, i, j, i) == i,
    decreases m.len() - j,
{
    if j < m.len() {
        let a = qabs(m[i][i]);
        let b = qabs(m[j as int][i]);
        assert(b.n == 0);
        assert(a.n * b.d >= 0) by (nonlinear_arith)
            requires
                a.n >= 0,
                b.d > 0,
        ;
        assert(!qlt(a, b));
        lemma_pivot_diagonal(m, i, j + 1, n);
    }
}

/// Every entry of the first `n` columns is a reduced fraction.
pub open spec fn reduced_entries(m: Seq<Seq<Q>>, n: nat) -> bool {
    forall|r: int, c: int| 0 <= r < n && 0 <= c < n ==> qcanon(#[trigger] m[r][c])
}

/// On a square matrix that has only zeros below its diagonal and non-zero
/// diagonal entries, an elimination step changes nothing but the running
/// product, which it multiplies by the diagonal entry.
proof fn lemma_det_step_triangular(m: Seq<Seq<Q>>, d: Q, i: int, n: nat)
    requires
        square_rows(m, n),
        reduced_entries(m, n),
        zero_below(m, n as int),
        forall|k: int| 0 <= k < n ==> (#[trigger] m[k][k]).n != 0,
        forall|r: int| 0 <= r < n ==> (#[trigger] m[r]).len() == n,
        0 <= i < n,
    ensures
        det_step(m, d, i) == Some((m, qmul(d, m[i][i]))),
{
    lemma_pivot_diagonal(m, i, (i + 1) as nat, n);
    let m1 = swap_entries(m, i, i);
    assert(m1 == m);
    let m2 = Seq::new(
        m.len(),
        |j: int| if j > i { minus_scaled(m1[j], m1[i], qdiv(m1[j][i], m1[i][i]), i) } else { m1[j] },
    );
    assert forall|j: int| 0 <= j < m.len() implies #[trigger] m2[j] == m[j] by {
        if j > i {
            let f = qdiv(m[j][i], m[i][i]);
            assert(m[j][i].n == 0);
            let fd = m[j][i].d * m[i][i].n;
            assert(fd != 0) by (nonlinear_arith)
                requires
                    m[j][i].d > 0,
                    m[i][i].n != 0,
                    fd == m[j][i].d * m[i][i].n,
            ;
            assert(m[j][i].n * m[i][i].d == 0);
            lemma_qnorm_zero_is_zero(fd);
            assert(f == qint(0));
            assert forall|k: int| 0 <= k < m[j].len() implies #[trigger] minus_scaled(m[j], m[i], f, i)[k] == m[j][k] by {
                if i <= k < m[i].len() {
                    let s = m[i][k];
                    let t = m[j][k];
                    assert(qcanon(s));
                    assert(qcanon(t));
                    assert(0 * s.n == 0);
                    lemma_qnorm_zero_is_zero(1 * s.d);
                    assert(qmul(f, s) == qint(0));
                    assert(t.n * 1 - 0 * t.d == t.n);
                    assert(t.d * 1 == t.d);
                    lemma_qnorm_canon(t);
                }
            }
            assert(minus_scaled(m[j], m[i], f, i) =~= m[j]);
        }
    }
    assert(m2 =~= m);
}

/// For a square matrix of reduced fractions with only zeros below its
/// diagonal and no zero on it, Gaussian elimination leaves the matrix as it is
/// and its determinant is the product of the diagonal entries.
pub proof fn lemma_triangular_det(m: Seq<Seq<Q>>)
    requires
        square_rows(m, m.len()),
        reduced_entries(m, m.len()),
        zero_below(m, m.len() as int),
        forall|k: int| 0 <= k < m.len() ==> (#[trigger] m[k][k]).n != 0,
        forall|r: int| 0 <= r < m.len() ==> (#[trigger] m[r]).len() == m.len(),
        m.len() >= 2,
    ensures
        gauss_det(m) == diag_product(m, m.len()),
{
    lemma_triangular_iter(m, m.len());
}

proof fn lemma_triangular_iter(m: Seq<Seq<Q>>, k: nat)
    requires
        square_rows(m, m.len()),
        reduced_entries(m, m.len()),
        zero_below(m, m.len() as int),
        forall|i: int| 0 <= i < m.len() ==> (#[trigger] m[i][i]).n != 0,
        forall|r: int| 0 <= r < m.len() ==> (#[trigger] m[r]).len() == m.len(),
        k <= m.len(),
    ensures
        det_iter(m, k) == Some((m, diag_product(m, k))),
    decreases k,
{
    if k > 0 {
        lemma_triangular_iter(m, (k - 1) as nat);
        lemma_det_step_triangular(m, diag_product(m, (k - 1) as nat), k - 1, m.len());
    }
}

/// `q` has the value `n / d`.
spec fn represents(q: Q, n: int, d: int) -> bool {
    d != 0 && q.d > 0 && q.n * d == n * q.d
}

/// A value given by one fraction is given by every fraction equal to it.
proof fn lemma_rep_transfer(q: Q, n1: int, d1: int, n2: int, d2: int)
    requires
        represents(q, n1, d1),
        d2 != 0,
        n1 * d2 == n2 * d1,
    ensures
        represents(q, n2, d2),
{
    assert(q.n * d2 == n2 * q.d) by (nonlinear_arith)
        requires
            d1 != 0,
            q.n * d1 == n1 * q.d,
            n1 * d2 == n2 * d1,
    {
        assert(q.n * d2 * d1 == q.n * d1 * d2);
        assert(q.n * d1 * d2 == n1 * q.d * d2);
        assert(n1 * q.d * d2 == q.d * (n1 * d2));
        assert(q.d * (n1 * d2) == q.d * (n2 * d1));
        assert(q.d * (n2 * d1) == (n2 * q.d) * d1);
        assert((q.n * d2 - n2 * q.d) * d1 == 0);
    }
}

/// Two fractions that give equal values are equal as rationals.
proof fn lemma_rep_eq(x: Q, n1: int, d1: int, y: Q, n2: int, d2: int)
    requires
        represents(x, n1, d1),
        represents(y, n2, d2),
        n1 * d2 == n2 * d1,
    ensures
        x.n * y.d == y.n * x.d,
{
    lemma_rep_transfer(x, n1, d1, n2, d2);
    assert(x.n * y.d == y.n * x.d) by (nonlinear_arith)
        requires
            d2 != 0,
            x.n * d2 == n2 * x.d,
            y.n * d2 == n2 * y.d,
    {
        assert(x.n * y.d * d2 == (x.n * d2) * y.d);
        assert((x.n * d2) * y.d == n2 * x.d * y.d);
        assert(y.n * x.d * d2 == (y.n * d2) * x.d);
        assert((y.n * d2) * x.d == n2 * y.d * x.d);
        assert((x.n * y.d - y.n * x.d) * d2 == 0);
    }
}

/// The product of two values given by fractions is given by the product of
/// the fractions.
proof fn lemma_rep_mul(x: Q, xn: int, xd: int, y: Q, yn: int, yd: int)
    requires
        represents(x, xn, xd),
        represents(y, yn, yd),
    ensures
        represents(qmul(x, y), xn * yn, xd * yd),
{
    let dd = x.d * y.d;
    assert(dd != 0) by (nonlinear_arith)
        requires
            x.d > 0,
            y.d > 0,
            dd == x.d * y.d,
    ;
    lemma_qnorm_value(x.n * y.n, dd);
    assert(xd * yd != 0) by (nonlinear_arith)
        requires
            xd != 0,
            yd != 0,
    ;
    assert((x.n * y.n) * (xd * yd) == (xn * yn) * dd) by (nonlinear_arith)
        requires
            x.n * xd == xn * x.d,
            y.n * yd == yn * y.d,
            dd == x.d * y.d,
    {
        assert((x.n * y.n) * (xd * yd) == (x.n * xd) * (y.n * yd));
        assert((xn * yn) * dd == (xn * x.d) * (yn * y.d));
    }
    lemma_rep_transfer(qmul(x, y), x.n * y.n, dd, xn * yn, xd * yd);
}

/// The difference of two values given by fractions is given by the
/// difference of the fractions.
proof fn lemma_rep_sub(x: Q, xn: int, xd: int, y: Q, yn: int, yd: int)
    requires
        represents(x, xn, xd),
        represents(y, yn, yd),
    ensures
        represents(qsub(x, y), xn * yd - yn * xd, xd * yd),
{
    let dd = x.d * y.d;
    assert(dd != 0) by (nonlinear_arith)
        requires
            x.d > 0,
            y.d > 0,
            dd == x.d * y.d,
    ;
    let nn = x.n * y.d - y.n * x.d;
    lemma_qnorm_value(nn, dd);
    assert(xd * yd != 0) by (nonlinear_arith)
        requires
            xd != 0,
            yd != 0,
    ;
    let t1 = x.n * y.d * (xd * yd);
    let t2 = y.n * x.d * (xd * yd);
    assert(t1 == (x.n * xd) * (y.d * yd)) by (nonlinear_arith)
        requires
            t1 == x.n * y.d * (xd * yd),
    ;
    assert(t2 == (y.n * yd) * (x.d * xd)) by (nonlinear_arith)
        requires
            t2 == y.n * x.d * (xd * yd),
    ;
    assert(t1 == xn * yd * dd) by (nonlinear_arith)
        requires
            t1 == (x.n * xd) * (y.d * yd),
            x.n * xd == xn * x.d,
            dd == x.d * y.d,
    ;
    assert(t2 == yn * xd * dd) by (nonlinear_arith)
        requires
            t2 == (y.n * yd) * (x.d * xd),
            y.n * yd == yn * y.d,
            dd == x.d * y.d,
    ;
    assert(nn * (xd * yd) == t1 - t2) by (nonlinear_arith)
        requires
            nn == x.n * y.d - y.n * x.d,
            t1 == x.n * y.d * (xd * yd),
            t2 == y.n * x.d * (xd * yd),
    ;
    assert((xn * yd - yn * xd) * dd == xn * yd * dd - yn * xd * dd) by (nonlinear_arith);
    lemma_rep_transfer(qsub(x, y), nn, dd, xn * yd - yn * xd, xd * yd);
}

/// The quotient of two values given by fractions, the divisor non-zero, is
/// given by the quotient of the fractions.
proof fn lemma_rep_div(x: Q, xn: int, xd: int, y: Q, yn: int, yd: int)
    requires
        represents(x, xn, xd),
        represents(y, yn, yd),
        y.n != 0,
    ensures
        represents(qdiv(x, y), xn * yd, xd * yn),
{
    let dd = x.d * y.n;
    assert(dd != 0) by (nonlinear_arith)
        requires
            x.d > 0,
            y.n != 0,
            dd == x.d * y.n,
    ;
    let nn = x.n * y.d;
    lemma_qnorm_value(nn, dd);
    assert(yn != 0) by (nonlinear_arith)
        requires
            y.n != 0,
            yd != 0,
            y.d > 0,
            y.n * yd == yn * y.d,
    ;
    assert(xd * yn != 0) by (nonlinear_arith)
        requires
            xd != 0,
            yn != 0,
    ;
    assert(nn * (xd * yn) == (xn * yd) * dd) by (nonlinear_arith)
        requires
            x.n * xd == xn * x.d,
            y.n * yd == yn * y.d,
            dd == x.d * y.n,
            nn == x.n * y.d,
    {
        assert(nn * (xd * yn) == (x.n * xd) * (y.d * yn));
        assert((x.n * xd) * (y.d * yn) == xn * x.d * (yn * y.d));
        assert((xn * yd) * dd == xn * x.d * (y.n * yd));
    }
    lemma_rep_transfer(qdiv(x, y), nn, dd, xn * yd, xd * yn);
}

/// The determinant of the upper left 2 x 2 block by its formula,
/// `m[0][0] m[1][1] - m[0][1] m[1][0]`.
pub open spec fn leibniz2(m: Seq<Seq<Q>>) -> Q {
    qsub(qmul(m[0][0], m[1][1]), qmul(m[0][1], m[1][0]))
}

/// One elimination step on the rows `[p, b]` and `[c, e]` with pivot `p`,
/// multiplied by the sign `s` and the pivot, has the value
/// `s (p e - c b)`.
proof fn lemma_two_rows(s: Q, sn: int, p: Q, b: Q, c: Q, e: Q) -> (nd: (int, int))
    requires
        represents(s, sn, 1),
        p.d > 0,
        b.d > 0,
        c.d > 0,
        e.d > 0,
        p.n != 0,
    ensures
        represents(qsub(e, qmul(qdiv(c, p), b)), nd.0, nd.1),
        nd.0 == e.n * (c.d * p.n * b.d) - (c.n * p.d * b.n) * e.d,
        nd.1 == e.d * (c.d * p.n * b.d),
        represents(qmul(qmul(s, p), qsub(e, qmul(qdiv(c, p), b))), (sn * p.n) * nd.0, (1 * p.d) * nd.1),
{
    lemma_rep_div(c, c.n, c.d, p, p.n, p.d);
    lemma_rep_mul(qdiv(c, p), c.n * p.d, c.d * p.n, b, b.n, b.d);
    assert((c.n * p.d) * b.n == c.n * p.d * b.n);
    assert((c.d * p.n) * b.d == c.d * p.n * b.d);
    lemma_rep_sub(e, e.n, e.d, qmul(qdiv(c, p), b), c.n * p.d * b.n, c.d * p.n * b.d);
    let en = e.n * (c.d * p.n * b.d) - (c.n * p.d * b.n) * e.d;
    let ed = e.d * (c.d * p.n * b.d);
    lemma_rep_mul(s, sn, 1, p, p.n, p.d);
    lemma_rep_mul(qmul(s, p), sn * p.n, 1 * p.d, qsub(e, qmul(qdiv(c, p), b)), en, ed);
    (en, ed)
}

/// For two rows, Gaussian elimination gives the determinant
/// `m[0][0] m[1][1] - m[0][1] m[1][0]` (as a rational), whichever row it
/// takes as pivot and whether or not a column runs out of pivots.
pub proof fn lemma_det_two_by_two(m: Seq<Seq<Q>>)
    requires
        square_rows(m, 2),
    ensures
        gauss_det(m).n * leibniz2(m).d == leibniz2(m).n * gauss_det(m).d,
{
    let a = m[0][0];
    let b = m[0][1];
    let c = m[1][0];
    let e = m[1][1];
    let t = leibniz2(m);
    lemma_rep_mul(a, a.n, a.d, e, e.n, e.d);
    lemma_rep_mul(b, b.n, b.d, c, c.n, c.d);
    lemma_rep_sub(qmul(a, e), a.n * e.n, a.d * e.d, qmul(b, c), b.n * c.n, b.d * c.d);
    let n2 = (a.n * e.n) * (b.d * c.d) - (b.n * c.n) * (a.d * e.d);
    let d2 = (a.d * e.d) * (b.d * c.d);
    assert(represents(t, n2, d2));
    reveal_with_fuel(pivot_from, 3);
    let p = pivot_from(m, 0, 1, 0);
    assert(p == if qlt(qabs(a), qabs(c)) { 1int } else { 0int });
    assert(det_iter(m, 0) == Some((m, qint(1))));
    assert(det_iter(m, 1) == det_step(m, qint(1), 0));
    if m[p][0].n == 0 {
        assert(det_iter(m, 2) is None);
        assert(gauss_det(m) == qint(0));
        if p == 0 {
            assert(a.n == 0);
            assert(!(0 * c.d < iabs(c.n) * a.d));
            assert(c.n == 0) by (nonlinear_arith)
                requires
                    a.d > 0,
                    !(0 * c.d < iabs(c.n) * a.d),
                    iabs(c.n) >= 0,
                    c.n == 0 || iabs(c.n) > 0,
            ;
        } else {
            assert(c.n == 0);
            assert(qlt(qabs(a), qabs(c)));
            assert(qabs(c).n == 0);
            assert(qabs(c).n * qabs(a).d == 0) by (nonlinear_arith)
                requires
                    qabs(c).n == 0,
            ;
            assert(iabs(a.n) * c.d >= 0) by (nonlinear_arith)
                requires
                    c.d > 0,
                    iabs(a.n) >= 0,
            ;
            assert(false);
        }
        assert(n2 == 0) by (nonlinear_arith)
            requires
                a.n == 0,
                c.n == 0,
                n2 == (a.n * e.n) * (b.d * c.d) - (b.n * c.n) * (a.d * e.d),
        ;
        assert(t.n * d2 == 0);
        assert(t.n == 0) by (nonlinear_arith)
            requires
                t.n * d2 == 0,
                d2 != 0,
        ;
        assert(gauss_det(m).n * t.d == t.n * gauss_det(m).d) by (nonlinear_arith)
            requires
                gauss_det(m).n == 0,
                t.n == 0,
        ;
    } else {
        let m1 = swap_entries(m, 0, p);
        let pv = m1[0][0];
        let pb = m1[0][1];
        let pc = m1[1][0];
        let pe = m1[1][1];
        let s = if p != 0 { qneg(qint(1)) } else { qint(1) };
        let sn: int = if p != 0 { -1 } else { 1 };
        assert(represents(s, sn, 1));
        if p == 1 {
            assert(m1[0] == m[1]);
            assert(m1[1] == m[0]);
        }
        assert(pv.n != 0);
        let f = qdiv(pc, pv);
        let m2 = Seq::new(
            m.len(),
            |j: int| if j > 0 { minus_scaled(m1[j], m1[0], qdiv(m1[j][0], m1[0][0]), 0) } else { m1[j] },
        );
        assert(det_step(m, qint(1), 0) == Some((m2, qmul(s, pv))));
        let ee = qsub(pe, qmul(f, pb));
        assert(m2[1] == minus_scaled(m1[1], m1[0], f, 0));
        assert(m2[1][1] == ee);
        let nd = lemma_two_rows(s, sn, pv, pb, pc, pe);
        let en = nd.0;
        let ed = nd.1;
        assert(pivot_from(m2, 1, 2, 1) == 1);
        assert(swap_entries(m2, 1, 1) == m2);
        assert(det_iter(m, 2) == det_step(m2, qmul(s, pv), 1));
        if p == 0 {
            assert(en == n2) by (nonlinear_arith)
                requires
                    en == e.n * (c.d * a.n * b.d) - (c.n * a.d * b.n) * e.d,
                    n2 == (a.n * e.n) * (b.d * c.d) - (b.n * c.n) * (a.d * e.d),
            ;
            assert((1 * a.d) * ed == a.n * d2) by (nonlinear_arith)
                requires
                    ed == e.d * (c.d * a.n * b.d),
                    d2 == (a.d * e.d) * (b.d * c.d),
            ;
        } else {
            assert(en == -n2) by (nonlinear_arith)
                requires
                    en == b.n * (a.d * c.n * e.d) - (a.n * c.d * e.n) * b.d,
                    n2 == (a.n * e.n) * (b.d * c.d) - (b.n * c.n) * (a.d * e.d),
            ;
            assert((1 * c.d) * ed == c.n * d2) by (nonlinear_arith)
                requires
                    ed == b.d * (a.d * c.n * e.d),
                    d2 == (a.d * e.d) * (b.d * c.d),
            ;
        }
        if ee.n == 0 {
            assert(gauss_det(m) == qint(0));
            assert(en == 0) by (nonlinear_arith)
                requires
                    ee.n * ed == en * ee.d,
                    ee.n == 0,
                    ee.d > 0,
            ;
            assert(n2 == 0);
            assert(t.n == 0) by (nonlinear_arith)
                requires
                    t.n * d2 == n2 * t.d,
                    n2 == 0,
                    d2 != 0,
            ;
            assert(gauss_det(m).n * t.d == t.n * gauss_det(m).d) by (nonlinear_arith)
                requires
                    gauss_det(m).n == 0,
                    t.n == 0,
            ;
        } else {
            assert(gauss_det(m) == qmul(qmul(s, pv), ee));
            let nr = (sn * pv.n) * en;
            let dr = (1 * pv.d) * ed;
            if p == 0 {
                assert(nr * d2 == n2 * dr) by (nonlinear_arith)
                    requires
                        sn == 1,
                        nr == (sn * a.n) * en,
                        dr == (1 * a.d) * ed,
                        en == n2,
                        dr == a.n * d2,
                ;
            } else {
                assert(nr * d2 == n2 * dr) by (nonlinear_arith)
                    requires
                        sn == -1,
                        nr == (sn * c.n) * en,
                        dr == (1 * c.d) * ed,
                        en == -n2,
                        (1 * c.d) * ed == c.n * d2,
                ;
            }
            lemma_rep_eq(gauss_det(m), nr, dr, t, n2, d2);
        }
    }
}

proof fn lemma_det_none(m: Seq<Seq<Q>>, i: nat, k: nat)
    requires
        i <= k,
        det_iter(m, i) is None,
    ensures
        det_iter(m, k) is None,
    decreases k - i,
{
    if i < k {
        lemma_det_none(m, i, (k - 1) as nat);
    }
}

/// The determinant by Gaussian elimination: at each column the row with the
/// entry of greatest absolute value is swapped up (negating the result), the
/// pivot multiplied in, and the rows below cleared; 0 when a column has no
/// non-zero entry left.
pub fn determinant(matrix: &[Vec<Rat>]) -> (r: Rat)
    requires
        rows_cover(matrix_view(matrix@)),
    ensures
        matrix@.len() == 0 ==> r@ == qint(1),
        matrix@.len() == 1 ==> r@ == matrix@[0]@[0]@,
        r@ == gauss_det(matrix_view(matrix@)),
{
    let n = matrix.len();
    let ghost mv0 = matrix_view(matrix@);
    if n == 0 {
        return Rat::from_i64(1);
    } else if n == 1 {
        assert(mv0[0] == rat_values(matrix@[0]@));
        assert(mv0[0].len() >= 1);
        assert(mv0[0][0] == matrix@[0]@[0]@);
        return matrix[0][0].duplicate();
    }
    let mut mat: Vec<Vec<Rat>> = Vec::new();
    let mut t: usize = 0;
    while t < n
        invariant
            n == matrix@.len(),
            t <= n,
            mat@.len() == t,
            mv0 == matrix_view(matrix@),
            rows_cover(mv0),
            forall|s: int| 0 <= s < t ==> (#[trigger] mat@[s])@.len() >= n,
            matrix_view(mat@) == mv0.subrange(0, t as int),
        decreases n - t,
    {
        assert(mv0[t as int] == rat_values(matrix@[t as int]@));
        let row = copy_row(&matrix[t]);
        assert(rat_values(row@).len() == row@.len());
        let ghost prev = mat@;
        mat.push(row);
        proof {
            assert(matrix_view(mat@) =~= matrix_view(prev).push(rat_values(row@)));
            assert(matrix_view(mat@) =~= mv0.subrange(0, t + 1));
        }
        t = t + 1;
    }
    assert(mv0.subrange(0, n as int) =~= mv0);
    let mut det = Rat::from_i64(1);
    let mut i: usize = 0;
    while i < n
        invariant
            n >= 2,
            n == matrix@.len(),
            mv0 == matrix_view(matrix@),
            mat@.len() == n,
            i <= n,
            forall|s: int| 0 <= s < n ==> (#[trigger] mat@[s])@.len() >= n,
            det_iter(mv0, i as nat) == Some((matrix_view(mat@), det@)),
        decreases n - i,
    {
        let ghost mm = matrix_view(mat@);
        let ghost dd = det@;
        let mut pivot: usize = i;
        let mut j: usize = i + 1;
        while j < n
            invariant
                mat@.len() == n,
                i < n,
                i <= pivot < n,
                i + 1 <= j <= n,
                forall|s: int| 0 <= s < n ==> (#[trigger] mat@[s])@.len() >= n,
                mm == matrix_view(mat@),
                pivot_from(mm, i as int, j as nat, pivot as int) == pivot_from(mm, i as int, (i + 1) as nat, i as int),
            decreases n - j,
        {
            assert(mm[pivot as int] == rat_values(mat@[pivot as int]@));
            assert(mm[j as int] == rat_values(mat@[j as int]@));
            assert(mm[pivot as int][i as int] == mat@[pivot as int]@[i as int]@);
            assert(mm[j as int][i as int] == mat@[j as int]@[i as int]@);
            if mat[pivot][i].abs().lt(&mat[j][i].abs()) {
                pivot = j;
            }
            j = j + 1;
        }
        assert(mm[pivot as int] == rat_values(mat@[pivot as int]@));
        assert(mm[pivot as int][i as int] == mat@[pivot as int]@[i as int]@);
        if mat[pivot][i].is_zero() {
            proof {
                assert(det_iter(mv0, (i + 1) as nat) is None);
                lemma_det_none(mv0, (i + 1) as nat, n as nat);
            }
            return Rat::from_i64(0);
        }
        let ghost pv = mat@[pivot as int]@[i as int]@;
        if pivot != i {
            let ghost before = mat@;
            proof {
                assert(matrix_view(before)[pivot as int] == rat_values(before[pivot as int]@));
            }
            swap_rows(&mut mat, i, pivot);
            det = det.neg();
            proof {
                assert forall|s: int| 0 <= s < n implies (#[trigger] mat@[s])@.len() >= n by {
                    assert(matrix_view(mat@)[s] == rat_values(mat@[s]@));
                    assert(matrix_view(before)[s] == rat_values(before[s]@));
                    assert(matrix_view(before)[i as int] == rat_values(before[i as int]@));
                }
                assert(matrix_view(mat@)[i as int] == rat_values(mat@[i as int]@));
                assert(rat_values(mat@[i as int]@)[i as int] == mat@[i as int]@[i as int]@);
                assert(rat_values(before[pivot as int]@)[i as int] == before[pivot as int]@[i as int]@);
            }
        }
        assert(mat@[i as int]@[i as int]@ == pv);
        let ghost m1 = matrix_view(mat@);
        assert(m1 == swap_entries(mm, i as int, pivot as int));
        assert(det@ == if pivot != i { qneg(dd) } else { dd });
        assert(m1[i as int] == rat_values(mat@[i as int]@));
        assert(m1[i as int][i as int] == pv);
        det = det.mul(&mat[i][i]);
        let mut j: usize = i + 1;
        while j < n
            invariant
                mat@.len() == n,
                i < n,
                i + 1 <= j <= n,
                pv.n != 0,
                mat@[i as int]@[i as int]@ == pv,
                forall|s: int| 0 <= s < n ==> (#[trigger] mat@[s])@.len() >= n,
                m1.len() == n,
                rat_values(mat@[i as int]@) == m1[i as int],
                m1[i as int][i as int] == pv,
                matrix_view(mat@) == Seq::new(
                    n as nat,
                    |s: int| if i < s < j { minus_scaled(m1[s], m1[i as int], qdiv(m1[s][i as int], pv), i as int) } else { m1[s] },
                ),
            decreases n - j,
        {
            let ghost mv = matrix_view(mat@);
            assert(mv[j as int] == rat_values(mat@[j as int]@));
            assert(mv[j as int] == m1[j as int]);
            assert(m1[j as int][i as int] == mat@[j as int]@[i as int]@);
            let factor = mat[j][i].div(&mat[i][i]);
            let new_row = row_minus_scaled(&mat[j], &mat[i], &factor, i);
            let ghost before = mat@;
            mat.set(j, new_row);
            proof {
                assert(matrix_view(mat@) =~= mv.update(j as int, rat_values(new_row@)));
                assert(matrix_view(mat@) =~= Seq::new(
                    n as nat,
                    |s: int| if i < s < j + 1 { minus_scaled(m1[s], m1[i as int], qdiv(m1[s][i as int], pv), i as int) } else { m1[s] },
                ));
                assert(mat@[i as int] == before[i as int]);
                assert forall|s: int| 0 <= s < n implies (#[trigger] mat@[s])@.len() >= n by {
                    if s != j {
                        assert(mat@[s] == before[s]);
                    }
                }
            }
            j = j + 1;
        }
        proof {
            assert(pivot as int == pivot_from(mm, i as int, (i + 1) as nat, i as int));
            assert(matrix_view(mat@) =~= Seq::new(
                mm.len(),
                |s: int| if s > i { minus_scaled(m1[s], m1[i as int], qdiv(m1[s][i as int], m1[i as int][i as int]), i as int) } else { m1[s] },
            ));
            assert(det_step(mm, dd, i as int) == Some((matrix_view(mat@), det@)));
        }
        i = i + 1;
    }
    det
}

/// The determinant of a matrix whose entries are constant polynomials;
/// `None` when an entry is not a constant.
pub fn rational_matrix_determinant(matrix: Vec<Vec<Polynomial>>) -> (r: Option<Rat>)
    requires
        forall|i: int| 0 <= i < matrix@.len() ==> (#[trigger] matrix@[i])@.len() >= matrix@.len(),
    ensures
        r is None <==> has_nonconstant(matrix@),
        r matches Some(d) ==> (matrix@.len() == 0 ==> d@ == qint(1)),
        r matches Some(d) ==> (matrix@.len() == 1 ==> is_constant_map(matrix@[0]@[0]@, d@)),
        r matches Some(d) ==> exists|cs: Seq<Seq<Q>>| #[trigger] constants_of(matrix@, cs) && d@ == gauss_det(cs),
{
    let ghost m = matrix@;
    let rational_matrix = match polynomial_matrix_to_rational_matrix(matrix) {
        Some(x) => x,
        None => {
            return None;
        },
    };
    proof {
        let cs = matrix_view(rational_matrix@);
        assert forall|i: int| 0 <= i < cs.len() implies (#[trigger] cs[i]).len() >= cs.len() by {
            assert(cs[i].len() == m[i]@.len());
        }
        if m.len() == 1 {
            assert(cs[0] == rat_values(rational_matrix@[0]@));
            assert(cs[0].len() >= 1);
            assert(cs[0][0] == rational_matrix@[0]@[0]@);
        }
    }
    Some(determinant(rational_matrix.as_slice()))
}

} // verus!
