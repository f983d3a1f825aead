//! Square matrices of rationals and their determinants by the Leibniz
//! formula, with the parity of permutations read from their cycles.
use crate::number::{qadd, qint, qmul, qneg, Q, Rat};
use crate::nonempty::rat_values;
use itertools::Itertools;
use vstd::prelude::*;

verus! {

/// `p` lists `0..n` in some order.
pub open spec fn is_perm_of(p: Seq<usize>, n: nat) -> bool {
    &&& p.len() == n
    &&& forall|i: int| 0 <= i < n ==> #[trigger] p[i] < n
    &&& forall|i: int, j: int| 0 <= i < n && 0 <= j < n && i != j ==> #[trigger] p[i] != #[trigger] p[j]
}

/// The list of all orderings of `0..n` that `itertools` produces.
pub uninterp spec fn range_permutations(n: usize) -> Seq<Seq<usize>>;

/// The values of a list of index vectors.
pub open spec fn index_lists(v: Seq<Vec<usize>>) -> Seq<Seq<usize>> {
    v.map_values(|x: Vec<usize>| x@)
}

/// Wraps `Itertools::permutations` on `0..n`, taking `n` at a time: every
/// ordering of `0..n`, each once. The order of the list is not stated.
#[verifier::external_body]
fn permutations_of_range(n: usize) -> (r: Vec<Vec<usize>>)
    ensures
        index_lists(r@) == range_permutations(n),
        forall|t: int| 0 <= t < r@.len() ==> is_perm_of(#[trigger] index_lists(r@)[t], n as nat),
        forall|p: Seq<usize>| is_perm_of(p, n as nat) ==> #[trigger] index_lists(r@).contains(p),
        index_lists(r@).no_duplicates(),
{
    (0..n).permutations(n).collect()
}

// ---------------------------------------------------------------------------
// Cycles of a permutation
// ---------------------------------------------------------------------------
/// `p` applied `k` times to `i`.
pub open spec fn iterate(p: Seq<usize>, i: int, k: nat) -> int
    decreases k,
{
    if k == 0 {
        i
    } else {
        p[iterate(p, i, (k - 1) as nat)] as int
    }
}

/// `i` first comes back to itself after `len` steps.
pub open spec fn cycle_of_len(p: Seq<usize>, i: int, len: nat) -> bool {
    len >= 1 && iterate(p, i, len) == i && forall|k: nat| 0 < k < len ==> #[trigger] iterate(p, i, k) != i
}

/// `i` is the smallest node of its cycle.
pub open spec fn cycle_leader(p: Seq<usize>, i: int) -> bool {
    forall|k: nat| #[trigger] iterate(p, i, k) >= i
}

/// The length of the cycle through `i`.
pub open spec fn cycle_len(p: Seq<usize>, i: int) -> nat {
    choose|len: nat| cycle_of_len(p, i, len)
}

/// Among the leaders below `m`, the number of those with a cycle of even length.
pub open spec fn even_cycles_below(p: Seq<usize>, m: nat) -> nat
    decreases m,
{
    if m == 0 {
        0
    } else {
        even_cycles_below(p, (m - 1) as nat) + if cycle_leader(p, m - 1) && cycle_len(p, m - 1) % 2 == 0 {
            1nat
        } else {
            0nat
        }
    }
}

/// A permutation is odd when it has an odd number of cycles of even length.
pub open spec fn perm_is_odd(p: Seq<usize>) -> bool {
    even_cycles_below(p, p.len()) % 2 == 1
}

proof fn lemma_iterate_add(p: Seq<usize>, i: int, s: nat, t: nat)
    requires
        is_perm_of(p, p.len()),
        0 <= i < p.len(),
    ensures
        iterate(p, iterate(p, i, s), t) == iterate(p, i, s + t),
        0 <= iterate(p, i, s) < p.len(),
    decreases t + s,
{
    if s > 0 {
        lemma_iterate_add(p, i, (s - 1) as nat, 0);
    }
    if t > 0 {
        lemma_iterate_add(p, i, s, (t - 1) as nat);
        lemma_iterate_add(p, i, (s + t - 1) as nat, 0);
    }
}

proof fn lemma_cycle_len_unique(p: Seq<usize>, i: int, len: nat)
    requires
        cycle_of_len(p, i, len),
    ensures
        cycle_len(p, i) == len,
{
    let c = cycle_len(p, i);
    assert(cycle_of_len(p, i, c));
    if c < len {
        assert(iterate(p, i, c) != i);
    }
    if len < c {
        assert(iterate(p, i, len) != i);
    }
}

/// Unvisited nodes, where the visited set is closed under preimages, have
/// unvisited orbits.
proof fn lemma_unvisited_orbit(p: Seq<usize>, v: Seq<bool>, x: int, k: nat)
    requires
        is_perm_of(p, p.len()),
        v.len() == p.len(),
        0 <= x < p.len(),
        !v[x],
        forall|y: int| 0 <= y < p.len() && v[p[y] as int] ==> #[trigger] v[y],
    ensures
        0 <= iterate(p, x, k) < p.len(),
        !v[iterate(p, x, k)],
    decreases k,
{
    if k > 0 {
        lemma_unvisited_orbit(p, v, x, (k - 1) as nat);
        let y = iterate(p, x, (k - 1) as nat);
        assert(p[y] < p.len());
    }
}

/// The number of `false` entries.
pub open spec fn count_false(v: Seq<bool>) -> nat
    decreases v.len(),
{
    if v.len() == 0 {
        0
    } else {
        count_false(v.drop_last()) + if v.last() { 0nat } else { 1nat }
    }
}

proof fn lemma_count_false_update(v: Seq<bool>, i: int)
    requires
        0 <= i < v.len(),
        !v[i],
    ensures
        count_false(v.update(i, true)) + 1 == count_false(v),
    decreases v.len(),
{
    if i < v.len() - 1 {
        assert(v.update(i, true).drop_last() =~= v.drop_last().update(i, true));
        lemma_count_false_update(v.drop_last(), i);
    } else {
        assert(v.update(i, true).drop_last() =~= v.drop_last());
    }
}

proof fn lemma_count_false_le(v: Seq<bool>)
    ensures
        count_false(v) <= v.len(),
    decreases v.len(),
{
    if v.len() > 0 {
        lemma_count_false_le(v.drop_last());
    }
}

/// `x` is among the first `c` nodes of the walk from `i`.
pub open spec fn in_walk(p: Seq<usize>, i: int, c: nat, x: int) -> bool {
    exists|k: nat| k < c && #[trigger] iterate(p, i, k) == x
}

/// Whether `perm`, an ordering of `0..n`, is odd: it is when it has an odd
/// number of cycles of even length.
#[verifier::spinoff_prover]
#[verifier::rlimit(40)]
pub fn is_odd_permutation(perm: &[usize]) -> (r: bool)
    requires
        is_perm_of(perm@, perm@.len()),
    ensures
        r == perm_is_odd(perm@),
{
    let n = perm.len();
    let ghost p = perm@;
    let mut visited: Vec<bool> = Vec::new();
    let mut t: usize = 0;
    while t < n
        invariant
            t <= n,
            visited@.len() == t,
            forall|j: int| 0 <= j < t ==> !#[trigger] visited@[j],
        decreases n - t,
    {
        visited.push(false);
        t = t + 1;
    }
    let mut odd = false;
    let mut i: usize = 0;
    while i < n
        invariant
            n == p.len() == visited@.len(),
            p == perm@,
            is_perm_of(p, n as nat),
            i <= n,
            forall|j: int| 0 <= j < i ==> #[trigger] visited@[j],
            forall|j: int| 0 <= j < n && #[trigger] visited@[j] ==> visited@[p[j] as int],
            forall|j: int| 0 <= j < n && visited@[p[j] as int] ==> #[trigger] visited@[j],
            forall|j: int| 0 <= j < n && #[trigger] visited@[j] ==> exists|k: nat| #[trigger] iterate(p, j, k) < i,
            odd == (even_cycles_below(p, i as nat) % 2 == 1),
        decreases n - i,
    {
        if !visited[i] {
            proof {
                assert forall|k: nat| #[trigger] iterate(p, i as int, k) >= i by {
                    lemma_unvisited_orbit(p, visited@, i as int, k);
                }
            }
            let ghost v0 = visited@;
            let mut c: usize = 0;
            let mut j: usize = i;
            while !visited[j]
                invariant
                    n == p.len() == visited@.len() == v0.len(),
                    p == perm@,
                    is_perm_of(p, n as nat),
                    i < n,
                    !v0[i as int],
                    j < n,
                    j == iterate(p, i as int, c as nat),
                    c <= n,
                    forall|x: int| 0 <= x < n ==> #[trigger] visited@[x] == (v0[x] || in_walk(p, i as int, c as nat, x)),
                    forall|k: nat| k < c ==> !v0[#[trigger] iterate(p, i as int, k)],
                    forall|a: nat, b: nat| a < b < c ==> #[trigger] iterate(p, i as int, a) != #[trigger] iterate(p, i as int, b),
                    forall|k: nat| k < c ==> 0 <= #[trigger] iterate(p, i as int, k) < n,
                    count_false(visited@) + c == count_false(v0),
                decreases count_false(visited@),
            {
                proof {
                    lemma_count_false_update(visited@, j as int);
                    lemma_count_false_le(v0);
                    assert(!in_walk(p, i as int, c as nat, j as int));
                    assert(!v0[j as int]);
                    assert(p[j as int] < n);
                }
                let ghost before = visited@;
                visited.set(j, true);
                j = perm[j];
                proof {
                    assert(j == iterate(p, i as int, (c + 1) as nat));
                    assert forall|x: int| 0 <= x < n implies #[trigger] visited@[x] == (v0[x] || in_walk(p, i as int, (c + 1) as nat, x)) by {
                        if in_walk(p, i as int, c as nat, x) {
                            let k = choose|k: nat| k < c && #[trigger] iterate(p, i as int, k) == x;
                            assert(iterate(p, i as int, k) == x);
                        }
                        if x == iterate(p, i as int, c as nat) {
                            assert(iterate(p, i as int, c as nat) == x);
                        }
                        if in_walk(p, i as int, (c + 1) as nat, x) {
                            let k = choose|k: nat| k < c + 1 && #[trigger] iterate(p, i as int, k) == x;
                            if k < c {
                                assert(in_walk(p, i as int, c as nat, x));
                            }
                        }
                    }
                    assert forall|a: nat, b: nat| a < b < c + 1 implies #[trigger] iterate(p, i as int, a) != #[trigger] iterate(p, i as int, b) by {
                        if b == c {
                            assert(in_walk(p, i as int, c as nat, iterate(p, i as int, a)));
                        }
                    }
                }
                c = c + 1;
            }
            proof {
                assert(c >= 1);
                let last = iterate(p, i as int, (c - 1) as nat);
                assert(j == p[last] as int);
                if v0[j as int] {
                    assert(v0[last]);
                }
                assert(in_walk(p, i as int, c as nat, j as int));
                let s = choose|s: nat| s < c && #[trigger] iterate(p, i as int, s) == j;
                if s > 0 {
                    let prev = iterate(p, i as int, (s - 1) as nat);
                    assert(p[prev] == p[last]);
                    assert(prev == last);
                }
                assert(j == i);
                assert forall|k: nat| 0 < k < c implies #[trigger] iterate(p, i as int, k) != i by {
                    assert(iterate(p, i as int, 0) == i);
                }
                assert(cycle_of_len(p, i as int, c as nat));
                lemma_cycle_len_unique(p, i as int, c as nat);
                assert(cycle_leader(p, i as int));
                assert forall|x: int| 0 <= x < n && #[trigger] visited@[x] implies visited@[p[x] as int] by {
                    if !v0[x] {
                        let k = choose|k: nat| k < c && #[trigger] iterate(p, i as int, k) == x;
                        assert(iterate(p, i as int, (k + 1) as nat) == p[x]);
                        if k + 1 < c {
                            assert(in_walk(p, i as int, c as nat, iterate(p, i as int, (k + 1) as nat)));
                        } else {
                            assert(in_walk(p, i as int, c as nat, iterate(p, i as int, 0)));
                        }
                    }
                }
                assert forall|x: int| 0 <= x < n && visited@[p[x] as int] implies #[trigger] visited@[x] by {
                    let y = p[x] as int;
                    if !v0[y] {
                        let k = choose|k: nat| k < c && #[trigger] iterate(p, i as int, k) == y;
                        if k > 0 {
                            let w = iterate(p, i as int, (k - 1) as nat);
                            assert(p[w] == p[x]);
                            assert(in_walk(p, i as int, c as nat, w));
                        } else {
                            assert(p[last] == p[x]);
                            assert(in_walk(p, i as int, c as nat, last));
                        }
                    }
                }
                assert forall|x: int| 0 <= x < n && #[trigger] visited@[x] implies exists|k: nat| #[trigger] iterate(p, x, k) < i + 1 by {
                    if v0[x] {
                        let k = choose|k: nat| #[trigger] iterate(p, x, k) < i;
                    } else {
                        let k = choose|k: nat| k < c && #[trigger] iterate(p, i as int, k) == x;
                        lemma_iterate_add(p, i as int, k, (c - k) as nat);
                        assert(iterate(p, x, (c - k) as nat) == i);
                    }
                }
            }
            if c % 2 == 0 {
                odd = !odd;
            }
        } else {
            proof {
                let k = choose|k: nat| #[trigger] iterate(p, i as int, k) < i;
                assert(!cycle_leader(p, i as int));
            }
        }
        i = i + 1;
    }
    odd
}

/// The odd entries of a list of orderings, in order.
pub open spec fn keep_odd(s: Seq<Seq<usize>>) -> Seq<Seq<usize>>
    decreases s.len(),
{
    if s.len() == 0 {
        Seq::empty()
    } else {
        let r = keep_odd(s.drop_last());
        if perm_is_odd(s.last()) {
            r.push(s.last())
        } else {
            r
        }
    }
}

proof fn lemma_keep_odd_contains(s: Seq<Seq<usize>>, p: Seq<usize>)
    ensures
        keep_odd(s).contains(p) <==> s.contains(p) && perm_is_odd(p),
    decreases s.len(),
{
    if s.len() > 0 {
        lemma_keep_odd_contains(s.drop_last(), p);
        let r = keep_odd(s.drop_last());
        if s.drop_last().contains(p) {
            let k = choose|k: int| 0 <= k < s.drop_last().len() && s.drop_last()[k] == p;
            assert(s[k] == p);
        }
        if s.contains(p) && s.last() != p {
            let k = choose|k: int| 0 <= k < s.len() && s[k] == p;
            assert(s.drop_last()[k] == p);
        }
        if perm_is_odd(s.last()) && keep_odd(s).contains(p) && !r.contains(p) {
            let k = choose|k: int| 0 <= k < keep_odd(s).len() && keep_odd(s)[k] == p;
            assert(k == r.len());
        }
        if perm_is_odd(s.last()) && s.last() == p {
            assert(keep_odd(s)[r.len() as int] == p);
        }
        if r.contains(p) && perm_is_odd(s.last()) {
            let k = choose|k: int| 0 <= k < r.len() && r[k] == p;
            assert(keep_odd(s)[k] == p);
        }
    }
}

/// The odd orderings of `0..n`: those the determinant negates.
pub fn generate_neg_list(n: usize) -> (r: Vec<Vec<usize>>)
    ensures
        index_lists(r@) == keep_odd(range_permutations(n)),
        forall|p: Seq<usize>| #[trigger] index_lists(r@).contains(p) <==> is_perm_of(p, n as nat) && perm_is_odd(p),
{
    let perms = permutations_of_range(n);
    let ghost ps = index_lists(perms@);
    let mut r: Vec<Vec<usize>> = Vec::new();
    let mut t: usize = 0;
    while t < perms.len()
        invariant
            t <= perms@.len(),
            ps == index_lists(perms@),
            forall|k: int| 0 <= k < perms@.len() ==> is_perm_of(#[trigger] index_lists(perms@)[k], n as nat),
            index_lists(r@) == keep_odd(ps.subrange(0, t as int)),
        decreases perms@.len() - t,
    {
        proof {
            assert(ps.subrange(0, t + 1).drop_last() =~= ps.subrange(0, t as int));
            assert(ps[t as int] == perms@[t as int]@);
            assert(is_perm_of(ps[t as int], n as nat));
        }
        if is_odd_permutation(perms[t].as_slice()) {
            let ghost prev = r@;
            let mut copy: Vec<usize> = Vec::new();
            let mut q: usize = 0;
            while q < perms[t].len()
                invariant
                    t < perms@.len(),
                    q <= perms@[t as int]@.len(),
                    copy@ == perms@[t as int]@.subrange(0, q as int),
                decreases perms@[t as int]@.len() - q,
            {
                copy.push(perms[t][q]);
                q = q + 1;
            }
            assert(copy@ =~= perms@[t as int]@);
            r.push(copy);
            proof {
                assert(index_lists(r@) =~= index_lists(prev).push(ps[t as int]));
            }
        }
        t = t + 1;
    }
    proof {
        assert(ps.subrange(0, perms@.len() as int) =~= ps);
        assert forall|p: Seq<usize>| #[trigger] index_lists(r@).contains(p) <==> is_perm_of(p, n as nat) && perm_is_odd(p) by {
            lemma_keep_odd_contains(ps, p);
            if ps.contains(p) {
                let k = choose|k: int| 0 <= k < ps.len() && ps[k] == p;
                assert(is_perm_of(index_lists(perms@)[k], n as nat));
            }
        }
    }
    r
}

/// Why a matrix could not be built.
#[derive(Clone, Copy, Debug, PartialEq, Eq, Structural)]
pub enum MatrixError {
    /// The size was zero.
    EmptyMatrix,
}

/// The rows of a matrix as rationals.
pub open spec fn rows_view(rows: Seq<Vec<Rat>>) -> Seq<Seq<Q>> {
    rows.map_values(|row: Vec<Rat>| rat_values(row@))
}

/// A square matrix of rationals of positive size.
pub struct Matrix {
    n: usize,
    data: Vec<Vec<Rat>>,
}

impl View for Matrix {
    type V = Seq<Seq<Q>>;

    closed spec fn view(&self) -> Seq<Seq<Q>> {
        rows_view(self.data@)
    }
}

/// The product `m[0][p[0]] * ... * m[k-1][p[k-1]]`, multiplied from the left.
pub open spec fn diagonal_product(m: Seq<Seq<Q>>, p: Seq<usize>, k: nat) -> Q
    decreases k,
{
    if k <= 1 {
        m[0][p[0] as int]
    } else {
        qmul(diagonal_product(m, p, (k - 1) as nat), m[k - 1][p[k - 1] as int])
    }
}

/// The sum of the Leibniz terms for the first `t` orderings, each negated
/// when it is listed in `negs`.
pub open spec fn leibniz_sum(m: Seq<Seq<Q>>, perms: Seq<Seq<usize>>, negs: Seq<Seq<usize>>, t: nat) -> Q
    decreases t,
{
    if t == 0 {
        qint(0)
    } else {
        let p = perms[t - 1];
        let term = diagonal_product(m, p, m.len());
        qadd(leibniz_sum(m, perms, negs, (t - 1) as nat), if negs.contains(p) { qneg(term) } else { term })
    }
}

impl Matrix {
    /// The rows have the size of the matrix.
    #[verifier::type_invariant]
    pub closed spec fn square(self) -> bool {
        &&& self.n > 0
        &&& self.data@.len() == self.n
        &&& forall|i: int| 0 <= i < self.n ==> (#[trigger] self.data@[i])@.len() == self.n
    }

    /// The number of rows.
    pub closed spec fn dim(&self) -> nat {
        self.n as nat
    }

    /// The `n` by `n` zero matrix; refused for `n == 0`.
    pub fn zero(n: usize) -> (r: Result<Matrix, MatrixError>)
        ensures
            r is Err <==> n == 0,
            r matches Err(e) ==> e == MatrixError::EmptyMatrix,
            r matches Ok(m) ==> m.dim() == n && m@.len() == n && forall|i: int, j: int|
                0 <= i < n && 0 <= j < n ==> #[trigger] m@[i][j] == qint(0) && m@[i].len() == n,
    {
        if n == 0 {
            return Err(MatrixError::EmptyMatrix);
        }
        let mut data: Vec<Vec<Rat>> = Vec::new();
        let mut i: usize = 0;
        while i < n
            invariant
                i <= n,
                data@.len() == i,
                forall|a: int| 0 <= a < i ==> (#[trigger] data@[a])@.len() == n,
                forall|a: int, b: int| 0 <= a < i && 0 <= b < n ==> #[trigger] rows_view(data@)[a][b] == qint(0),
            decreases n - i,
        {
            let mut row: Vec<Rat> = Vec::new();
            let mut j: usize = 0;
            while j < n
                invariant
                    j <= n,
                    row@.len() == j,
                    forall|b: int| 0 <= b < j ==> #[trigger] rat_values(row@)[b] == qint(0),
                decreases n - j,
            {
                let ghost prev = row@;
                let z = Rat::from_i64(0);
                row.push(z);
                proof {
                    assert forall|b: int| 0 <= b < j + 1 implies #[trigger] rat_values(row@)[b] == qint(0) by {
                        if b < j {
                            assert(row@[b] == prev[b]);
                            assert(rat_values(prev)[b] == qint(0));
                        } else {
                            assert(row@[b] == z);
                        }
                    }
                }
                j = j + 1;
            }
            let ghost prev = data@;
            data.push(row);
            proof {
                assert forall|a: int, b: int| 0 <= a < i + 1 && 0 <= b < n implies #[trigger] rows_view(data@)[a][b]
                    == qint(0) by {
                    if a < i {
                        assert(data@[a] == prev[a]);
                        assert(rows_view(prev)[a][b] == qint(0));
                    }
                }
            }
            i = i + 1;
        }
        Ok(Matrix { n, data })
    }

    /// The entry in row `i`, column `j`.
    fn get(&self, i: usize, j: usize) -> (r: &Rat)
        requires
            i < self.dim(),
            j < self.dim(),
        ensures
            r@ == self@[i as int][j as int],
    {
        proof {
            use_type_invariant(self);
        }
        &self.data[i][j]
    }

    /// Replaces the entry in row `i`, column `j`.
    pub fn set(&mut self, i: usize, j: usize, value: Rat)
        requires
            i < old(self).dim(),
            j < old(self).dim(),
        ensures
            final(self).dim() == old(self).dim(),
            final(self)@ == old(self)@.update(i as int, old(self)@[i as int].update(j as int, value@)),
    {
        proof {
            use_type_invariant(&*self);
        }
        let ghost before = self.data@;
        let old_row = &self.data[i];
        let ghost ov = rat_values(old_row@);
        let mut row: Vec<Rat> = Vec::new();
        let mut k: usize = 0;
        while k < old_row.len()
            invariant
                k <= old_row@.len(),
                ov == rat_values(old_row@),
                row@.len() == k,
                forall|b: int| 0 <= b < k ==> #[trigger] rat_values(row@)[b] == (if b == j { value@ } else { ov[b] }),
            decreases old_row@.len() - k,
        {
            let x = if k == j { value.duplicate() } else { old_row[k].duplicate() };
            let ghost prev = row@;
            row.push(x);
            proof {
                assert forall|b: int| 0 <= b < k + 1 implies #[trigger] rat_values(row@)[b] == (if b == j { value@ } else { ov[b] }) by {
                    if b < k {
                        assert(row@[b] == prev[b]);
                        assert(rat_values(prev)[b] == (if b == j { value@ } else { ov[b] }));
                    } else {
                        assert(row@[b] == x);
                    }
                }
            }
            k = k + 1;
        }
        proof {
            assert(rat_values(row@) =~= ov.update(j as int, value@));
        }
        let mut one_row: Vec<Rat> = Vec::new();
        one_row.push(Rat::from_i64(0));
        let mut one: Vec<Vec<Rat>> = Vec::new();
        one.push(one_row);
        let mut taken = Matrix { n: 1, data: one };
        std::mem::swap(self, &mut taken);
        let Matrix { n, mut data } = taken;
        data.set(i, row);
        proof {
            assert(rows_view(data@) =~= rows_view(before).update(i as int, ov.update(j as int, value@)));
            assert forall|a: int| 0 <= a < n implies (#[trigger] data@[a])@.len() == n by {
                if a != i {
                    assert(data@[a] == before[a]);
                }
            }
        }
        *self = Matrix { n, data };
    }
}

/// Whether `p` is one of the index lists in `list`.
fn contains_list(list: &Vec<Vec<usize>>, p: &Vec<usize>) -> (r: bool)
    ensures
        r == index_lists(list@).contains(p@),
{
    let mut t: usize = 0;
    while t < list.len()
        invariant
            t <= list@.len(),
            forall|k: int| 0 <= k < t ==> index_lists(list@)[k] != p@,
        decreases list@.len() - t,
    {
        let q = &list[t];
        assert(index_lists(list@)[t as int] == q@);
        if q.len() == p.len() {
            let mut e: usize = 0;
            let mut same = true;
            while e < q.len()
                invariant
                    e <= q@.len(),
                    q@.len() == p@.len(),
                    same == (forall|x: int| 0 <= x < e ==> q@[x] == p@[x]),
                decreases q@.len() - e,
            {
                if q[e] != p[e] {
                    same = false;
                }
                e = e + 1;
            }
            if same {
                assert(q@ =~= p@);
                return true;
            }
        }
        t = t + 1;
    }
    false
}

impl Matrix {
    /// The number of rows.
    fn size(&self) -> (r: usize)
        ensures
            r == self.dim(),
            r > 0,
            self@.len() == r,
            forall|i: int| 0 <= i < r ==> #[trigger] self@[i].len() == r,
    {
        proof {
            use_type_invariant(self);
            assert forall|i: int| 0 <= i < self.n implies #[trigger] self@[i].len() == self.n by {
                assert(self@[i] == rat_values(self.data@[i]@));
            }
        }
        self.n
    }

    /// The determinant by the Leibniz formula: over the orderings of the
    /// columns that `itertools` produces, the product of the chosen entries,
    /// negated when the ordering is listed in `neg_list`, summed in order.
    pub fn determinant(&self, neg_list: &Vec<Vec<usize>>) -> (r: Rat)
        ensures
            r@ == leibniz_sum(self@, range_permutations(self.dim() as usize), index_lists(neg_list@), range_permutations(
                self.dim() as usize,
            ).len()),
    {
        let n = self.size();
        let perms = permutations_of_range(n);
        let ghost ps = index_lists(perms@);
        let ghost negs = index_lists(neg_list@);
        let mut det = Rat::from_i64(0);
        let mut t: usize = 0;
        while t < perms.len()
            invariant
                n == self.dim(),
                n > 0,
                self@.len() == n,
                forall|i: int| 0 <= i < n ==> #[trigger] self@[i].len() == n,
                t <= perms@.len(),
                ps == index_lists(perms@),
                ps == range_permutations(n),
                negs == index_lists(neg_list@),
                forall|k: int| 0 <= k < perms@.len() ==> is_perm_of(#[trigger] index_lists(perms@)[k], n as nat),
                det@ == leibniz_sum(self@, ps, negs, t as nat),
            decreases perms@.len() - t,
        {
            let perm = &perms[t];
            proof {
                assert(ps[t as int] == perm@);
                assert(is_perm_of(ps[t as int], n as nat));
            }
            let is_neg = contains_list(neg_list, perm);
            let mut product = self.get(0, perm[0]).duplicate();
            let mut i: usize = 1;
            while i < n
                invariant
                    n == self.dim(),
                    self@.len() == n,
                    forall|a: int| 0 <= a < n ==> #[trigger] self@[a].len() == n,
                    is_perm_of(perm@, n as nat),
                    1 <= i <= n,
                    product@ == diagonal_product(self@, perm@, i as nat),
                decreases n - i,
            {
                product = product.mul(self.get(i, perm[i]));
                i = i + 1;
            }
            if is_neg {
                product = product.neg();
            }
            det = det.add(&product);
            t = t + 1;
        }
        det
    }

    /// The entries, row by row.
    pub fn get_data(&self) -> (r: Vec<Vec<Rat>>)
        ensures
            rows_view(r@) == self@,
    {
        let mut out: Vec<Vec<Rat>> = Vec::new();
        let mut i: usize = 0;
        while i < self.data.len()
            invariant
                i <= self.data@.len(),
                rows_view(out@) == rows_view(self.data@).subrange(0, i as int),
            decreases self.data@.len() - i,
        {
            let row = &self.data[i];
            let mut copy: Vec<Rat> = Vec::new();
            let mut k: usize = 0;
            while k < row.len()
                invariant
                    k <= row@.len(),
                    rat_values(copy@) == rat_values(row@).subrange(0, k as int),
                decreases row@.len() - k,
            {
                let x = row[k].duplicate();
                let ghost prev = copy@;
                copy.push(x);
                proof {
                    assert(rat_values(copy@) =~= rat_values(prev).push(x@));
                }
                k = k + 1;
            }
            proof {
                assert(rat_values(row@).subrange(0, row@.len() as int) =~= rat_values(row@));
            }
            let ghost prev = out@;
            out.push(copy);
            proof {
                assert(rows_view(out@) =~= rows_view(prev).push(rat_values(row@)));
                assert(rows_view(self.data@)[i as int] == rat_values(row@));
                assert(rows_view(out@) =~= rows_view(self.data@).subrange(0, i + 1));
            }
            i = i + 1;
        }
        proof {
            assert(rows_view(self.data@).subrange(0, self.data@.len() as int) =~= rows_view(self.data@));
        }
        out
    }
}

} // verus!
