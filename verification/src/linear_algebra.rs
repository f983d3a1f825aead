//! Systems of linear equations `A x = b` written as polynomials.
use crate::nonempty::rat_values;
use crate::number::{qint, qneg, Q, Rat};
use crate::polynomial::{map_add_term, unit_exp, zero_exp, zeros, Exponent, Polynomial};
use rand::seq::IndexedRandom;
use vstd::prelude::*;

verus! {

/// A matrix and a vector that do not make a system of linear equations.
#[derive(Debug, PartialEq, Eq, Clone, Copy)]
pub enum LinearError {
    /// The matrix has not as many rows as the vector has entries.
    RowCountMismatch,
    /// Two rows of the matrix differ in length.
    RowLengthMismatch,
}

/// The values of the rows of a matrix.
pub open spec fn matrix_view(m: Seq<Vec<Rat>>) -> Seq<Seq<Q>> {
    m.map_values(|row: Vec<Rat>| rat_values(row@))
}

/// Every row has as many entries as the first one.
pub open spec fn rows_same_len(m: Seq<Seq<Q>>) -> bool {
    forall|i: int| 0 <= i < m.len() ==> #[trigger] m[i].len() == m[0].len()
}

/// `m` is the polynomial `row[0] x_0 + ... + row[k-1] x_(k-1) - b` in the
/// `k = row.len()` variables `x_0, ..., x_(k-1)`.
pub open spec fn is_affine(m: Map<Seq<u32>, Q>, row: Seq<Q>, b: Q) -> bool {
    let k = row.len();
    &&& forall|j: int| 0 <= j < k ==> (#[trigger] m.contains_key(unit_exp(j, k)) <==> row[j].n != 0)
    &&& forall|j: int| 0 <= j < k && row[j].n != 0 ==> #[trigger] m[unit_exp(j, k)] == row[j]
    &&& (m.contains_key(zero_exp(k)) <==> b.n != 0)
    &&& (b.n != 0 ==> m[zero_exp(k)] == qneg(b))
    &&& forall|e: Seq<u32>| #[trigger] m.contains_key(e) ==> e == zero_exp(k) || exists|j: int| 0 <= j < k && e == unit_exp(j, k)
}

proof fn lemma_unit_exp_distinct(i: int, j: int, k: nat)
    requires
        0 <= i < k,
        0 <= j < k,
        i != j,
    ensures
        unit_exp(i, k) != unit_exp(j, k),
{
    assert(unit_exp(i, k)[i] == 1u32);
    assert(unit_exp(j, k)[i] == 0u32);
}

proof fn lemma_unit_exp_not_zero(i: int, k: nat)
    requires
        0 <= i < k,
    ensures
        unit_exp(i, k) != zero_exp(k),
{
    assert(unit_exp(i, k)[i] == 1u32);
    assert(zero_exp(k)[i] == 0u32);
}

/// `q` is an integer from -10 to 10.
pub open spec fn small_int(q: Q) -> bool {
    exists|k: int| -10 <= k <= 10 && q == qint(k)
}

/// The affine polynomial of one row: `sum row[j] x_j - b`.
fn row_to_polynomial(row: &Vec<Rat>, b: &Rat) -> (p: Polynomial)
    ensures
        is_affine(p@, rat_values(row@), b@),
{
    let k = row.len();
    let ghost r = rat_values(row@);
    let mut p = Polynomial::zero();
    let mut j: usize = 0;
    while j < k
        invariant
            k == row@.len() == r.len(),
            r == rat_values(row@),
            j <= k,
            forall|t: int| 0 <= t < j ==> (#[trigger] p@.contains_key(unit_exp(t, k as nat)) <==> r[t].n != 0),
            forall|t: int| 0 <= t < j && r[t].n != 0 ==> #[trigger] p@[unit_exp(t, k as nat)] == r[t],
            forall|e: Seq<u32>| #[trigger] p@.contains_key(e) ==> exists|t: int| 0 <= t < j && e == unit_exp(t, k as nat),
        decreases k - j,
    {
        let mut exponents = zeros(k);
        exponents.set(j, 1);
        proof {
            assert(exponents@ =~= unit_exp(j as int, k as nat));
        }
        let ghost before = p@;
        let ghost key = unit_exp(j as int, k as nat);
        proof {
            if before.contains_key(key) {
                let t = choose|t: int| 0 <= t < j && key == unit_exp(t, k as nat);
                lemma_unit_exp_distinct(t, j as int, k as nat);
            }
        }
        p.add_term(Exponent::new(exponents), row[j].duplicate());
        proof {
            assert(r[j as int] == row@[j as int]@);
            assert forall|t: int| 0 <= t < j + 1 implies (#[trigger] p@.contains_key(unit_exp(t, k as nat)) <==> r[t].n != 0) by {
                if t < j {
                    lemma_unit_exp_distinct(t, j as int, k as nat);
                }
            }
            assert forall|t: int| 0 <= t < j + 1 && r[t].n != 0 implies #[trigger] p@[unit_exp(t, k as nat)] == r[t] by {
                if t < j {
                    lemma_unit_exp_distinct(t, j as int, k as nat);
                }
            }
            assert forall|e: Seq<u32>| #[trigger] p@.contains_key(e) implies exists|t: int| 0 <= t < j + 1 && e == unit_exp(t, k as nat) by {
                if e != key {
                    assert(before.contains_key(e));
                }
            }
        }
        j = j + 1;
    }
    let ghost before = p@;
    let ghost z = zero_exp(k as nat);
    proof {
        if before.contains_key(z) {
            let t = choose|t: int| 0 <= t < k && z == unit_exp(t, k as nat);
            lemma_unit_exp_not_zero(t, k as nat);
        }
    }
    p.add_term(Exponent::new(zeros(k)), b.neg());
    proof {
        assert forall|t: int| 0 <= t < k implies (#[trigger] p@.contains_key(unit_exp(t, k as nat)) <==> r[t].n != 0) by {
            lemma_unit_exp_not_zero(t, k as nat);
        }
        assert forall|t: int| 0 <= t < k && r[t].n != 0 implies #[trigger] p@[unit_exp(t, k as nat)] == r[t] by {
            lemma_unit_exp_not_zero(t, k as nat);
        }
        assert forall|e: Seq<u32>| #[trigger] p@.contains_key(e) implies e == z || exists|t: int| 0 <= t < k && e == unit_exp(t, k as nat) by {
            if e != z {
                assert(before.contains_key(e));
            }
        }
    }
    p
}

/// The equations `A x = b` as the polynomials `row_i . x - b_i`, one per row.
pub fn matrix_vector_to_polynomial(matrix: &Vec<Vec<Rat>>, vector: &Vec<Rat>) -> (r: Result<Vec<Polynomial>, LinearError>)
    ensures
        match r {
            Err(LinearError::RowCountMismatch) => matrix@.len() != vector@.len(),
            Err(LinearError::RowLengthMismatch) => matrix@.len() == vector@.len() && !rows_same_len(matrix_view(matrix@)),
            Ok(ps) => {
                &&& matrix@.len() == vector@.len()
                &&& rows_same_len(matrix_view(matrix@))
                &&& ps@.len() == matrix@.len()
                &&& forall|i: int|
                    0 <= i < ps@.len() ==> is_affine(
                        #[trigger] ps@[i]@,
                        matrix_view(matrix@)[i],
                        vector@[i]@,
                    )
            },
        },
{
    let ghost mv = matrix_view(matrix@);
    if matrix.len() != vector.len() {
        return Err(LinearError::RowCountMismatch);
    }
    let mut polynomials: Vec<Polynomial> = Vec::new();
    let mut i: usize = 0;
    while i < matrix.len()
        invariant
            matrix@.len() == vector@.len(),
            mv == matrix_view(matrix@),
            i <= matrix@.len(),
            polynomials@.len() == i,
            forall|t: int| 0 <= t < i ==> #[trigger] mv[t].len() == mv[0].len(),
            forall|t: int| 0 <= t < i ==> is_affine(#[trigger] polynomials@[t]@, mv[t], vector@[t]@),
        decreases matrix@.len() - i,
    {
        assert(mv[i as int] == rat_values(matrix@[i as int]@));
        if i > 0 && matrix[i].len() != matrix[i - 1].len() {
            proof {
                assert(mv[i - 1] == rat_values(matrix@[i - 1]@));
                assert(mv[i - 1].len() == mv[0].len());
            }
            return Err(LinearError::RowLengthMismatch);
        }
        proof {
            if i > 0 {
                assert(mv[i - 1] == rat_values(matrix@[i - 1]@));
                assert(mv[i - 1].len() == mv[0].len());
            }
        }
        let p = row_to_polynomial(&matrix[i], &vector[i]);
        polynomials.push(p);
        i = i + 1;
    }
    Ok(polynomials)
}

/// Picks one entry of `nums` at random: `rand`'s `IndexedRandom::choose` on
/// the thread's generator, which samples the slice uniformly. Claimed: the
/// pick is an entry of `nums` (which one rests on chance and is left
/// unsaid).
#[verifier::external_body]
fn choose_entry(nums: &[i64]) -> (r: i64)
    requires
        nums@.len() > 0,
    ensures
        nums@.contains(r),
{
    *nums.choose(&mut rand::rng()).unwrap()
}

/// An integer from -10 to 10, chosen at random.
fn generate_random_int() -> (r: Rat)
    ensures
        small_int(r@),
{
    let mut nums: Vec<i64> = Vec::new();
    let mut k: i64 = -10;
    while k <= 10
        invariant
            -10 <= k <= 11,
            nums@.len() == k + 10,
            forall|t: int| 0 <= t < nums@.len() ==> -10 <= #[trigger] nums@[t] <= 10,
        decreases 11 - k,
    {
        nums.push(k);
        k = k + 1;
    }
    let x = choose_entry(nums.as_slice());
    proof {
        let t = choose|t: int| 0 <= t < nums@.len() && nums@[t] == x;
        assert(-10 <= nums@[t] <= 10);
    }
    let r = Rat::from_i64(x);
    assert(-10 <= x <= 10 && r@ == qint(x as int));
    r
}

/// A random `n` by `m` matrix and a random vector of `n` entries, every
/// entry an integer from -10 to 10.
pub fn generate_random_matrix_vector(n: usize, m: usize) -> (r: (Vec<Vec<Rat>>, Vec<Rat>))
    ensures
        r.0@.len() == n,
        r.1@.len() == n,
        forall|i: int| 0 <= i < n ==> (#[trigger] r.0@[i])@.len() == m,
        forall|i: int, j: int|
            0 <= i < n && 0 <= j < m ==> small_int(#[trigger] r.0@[i]@[j]@),
        forall|i: int| 0 <= i < n ==> small_int(#[trigger] r.1@[i]@),
{
    let mut matrix: Vec<Vec<Rat>> = Vec::new();
    let mut i: usize = 0;
    while i < n
        invariant
            i <= n,
            matrix@.len() == i,
            forall|t: int| 0 <= t < i ==> (#[trigger] matrix@[t])@.len() == m,
            forall|t: int, j: int|
                0 <= t < i && 0 <= j < m ==> small_int(#[trigger] matrix@[t]@[j]@),
        decreases n - i,
    {
        let mut row: Vec<Rat> = Vec::new();
        let mut j: usize = 0;
        while j < m
            invariant
                j <= m,
                row@.len() == j,
                forall|t: int| 0 <= t < j ==> small_int(#[trigger] row@[t]@),
            decreases m - j,
        {
            row.push(generate_random_int());
            j = j + 1;
        }
        matrix.push(row);
        i = i + 1;
    }
    let mut vector: Vec<Rat> = Vec::new();
    let mut i: usize = 0;
    while i < n
        invariant
            i <= n,
            vector@.len() == i,
            forall|t: int| 0 <= t < i ==> small_int(#[trigger] vector@[t]@),
        decreases n - i,
    {
        vector.push(generate_random_int());
        i = i + 1;
    }
    (matrix, vector)
}

/// `ps` are the equations `a x = b` of an `n` by `m` system whose entries
/// are integers from -10 to 10.
pub open spec fn small_system(ps: Seq<Polynomial>, a: Seq<Seq<Q>>, b: Seq<Q>, n: nat, m: nat) -> bool {
    &&& ps.len() == n
    &&& a.len() == n
    &&& b.len() == n
    &&& forall|i: int| 0 <= i < n ==> (#[trigger] a[i]).len() == m
    &&& forall|i: int, j: int| 0 <= i < n && 0 <= j < m ==> small_int(#[trigger] a[i][j])
    &&& forall|i: int| 0 <= i < n ==> small_int(#[trigger] b[i])
    &&& forall|i: int| 0 <= i < n ==> is_affine(#[trigger] ps[i]@, a[i], b[i])
}

/// Random equations `A x = b` with `n` rows over `m` unknowns, as polynomials.
pub fn generate_random_linear_polynomials(n: usize, m: usize) -> (r: Result<Vec<Polynomial>, LinearError>)
    ensures
        r matches Ok(ps) && exists|a: Seq<Seq<Q>>, b: Seq<Q>| #[trigger] small_system(ps@, a, b, n as nat, m as nat),
{
    let (matrix, vector) = generate_random_matrix_vector(n, m);
    let r = matrix_vector_to_polynomial(&matrix, &vector);
    proof {
        let a = matrix_view(matrix@);
        let b = rat_values(vector@);
        if n > 0 {
            assert(a[0] == rat_values(matrix@[0]@));
        }
        assert forall|i: int| 0 <= i < a.len() implies #[trigger] a[i].len() == a[0].len() by {
            assert(a[i] == rat_values(matrix@[i]@));
            assert(a[0] == rat_values(matrix@[0]@));
        }
        assert forall|i: int, j: int| 0 <= i < n && 0 <= j < m implies small_int(#[trigger] a[i][j]) by {
            assert(a[i] == rat_values(matrix@[i]@));
            assert(a[i][j] == matrix@[i]@[j]@);
        }
        assert forall|i: int| 0 <= i < n implies small_int(#[trigger] b[i]) by {
            assert(b[i] == vector@[i]@);
        }
        assert forall|i: int| 0 <= i < n implies (#[trigger] a[i]).len() == m by {
            assert(a[i] == rat_values(matrix@[i]@));
        }
        assert(rows_same_len(a));
        if r is Ok {
            let ps = r->Ok_0;
            assert forall|i: int| 0 <= i < n implies is_affine(#[trigger] ps@[i]@, a[i], b[i]) by {
                assert(b[i] == vector@[i]@);
            }
            assert(small_system(ps@, a, b, n as nat, m as nat));
        }
    }
    r
}

} // verus!
