//! Deciding whether a sample point satisfies a system of sign conditions.
use crate::cad::binary_search::{
    bisect, lemma_refine_within_any, lemma_within_refl, lemma_within_trans, refine_root, refined, within,
};
use crate::cad::mahler::{
    classify, evaluate_polynomial_by_mahler, mahler_fits, mahler_inputs, signed_within_limit, terms_sum, MahlerResult,
    RangeModel,
};
use crate::cad::sturm::{root_shape, root_text, roots_view, Root, RootRange, RootView};
use crate::number::{qlt, Q};
use crate::parser::ast::RelOp;
use crate::polynomial::Polynomial;
use vstd::prelude::*;
use vstd::string::StringExecFns;

verus! {

/// Whether a sample point solves the system, with the refined point if so.
pub enum Solution {
    NoSolution,
    Exist(Vec<Root>),
}

/// Whether a value of sign `m` satisfies `value op 0`; `None` when unknown.
pub open spec fn satisfies_spec(m: MahlerResult, op: RelOp) -> Option<bool> {
    match m {
        MahlerResult::Uncertain => None,
        MahlerResult::Zero => Some(op == RelOp::Eq || op == RelOp::Leq || op == RelOp::Geq),
        MahlerResult::Positive => Some(op == RelOp::Neq || op == RelOp::Gt || op == RelOp::Geq),
        MahlerResult::Negative => Some(op == RelOp::Neq || op == RelOp::Lt || op == RelOp::Leq),
    }
}

/// The sign `m` of `poly` was decided at the sample `sv` from its bounds.
pub open spec fn decided(poly: Polynomial, sv: Seq<RootView>, m: MahlerResult) -> bool {
    m !is Uncertain && exists|ranges: Seq<RangeModel>, t: Seq<(Seq<u32>, Q)>, perm: Seq<int>|
        #[trigger] mahler_inputs(poly.term_seq(), sv, ranges, t, perm) && m == classify(terms_sum(t, sv, ranges, t.len()))
}

/// The condition `ineq` was decided true at some refinement of the sample `s0`.
pub open spec fn holds_at(ineq: (Polynomial, RelOp), s0: Seq<RootView>) -> bool {
    exists|sv: Seq<RootView>, m: MahlerResult|
        refines_all(sv, s0) && #[trigger] decided(ineq.0, sv, m) && satisfies_spec(m, ineq.1) == Some(true)
}

/// Each root of `a` describes the same root as the one of `b` at its
/// position, with an equal or narrower range.
pub open spec fn refines_all(a: Seq<RootView>, b: Seq<RootView>) -> bool {
    a.len() == b.len() && forall|i: int| 0 <= i < a.len() ==> within(#[trigger] a[i], b[i])
}

/// Every root has the shape of a root.
pub open spec fn all_shaped(a: Seq<RootView>) -> bool {
    forall|i: int| 0 <= i < a.len() ==> root_shape(#[trigger] a[i])
}

/// The root after one refinement step with Newton; an exact root stays.
pub open spec fn refine_newton(v: RootView) -> RootView {
    match v.range {
        RootRange::Interval(l, u) => {
            let (rl, ru) = refined(v.poly, l, u, true);
            let (bl, bu) = bisect(v.poly, l, u);
            RootView {
                poly: v.poly,
                range: if qlt(rl, ru) {
                    RootRange::Interval(rl, ru)
                } else {
                    RootRange::Interval(bl, bu)
                },
            }
        },
        RootRange::Exact(_) => v,
    }
}

/// Every root refined once with Newton.
pub open spec fn refine_round(s: Seq<RootView>) -> Seq<RootView> {
    s.map_values(|v: RootView| refine_newton(v))
}

/// The sample after `k` refinement rounds.
pub open spec fn refine_rounds(s: Seq<RootView>, k: nat) -> Seq<RootView>
    decreases k,
{
    if k == 0 {
        s
    } else {
        refine_round(refine_rounds(s, (k - 1) as nat))
    }
}

/// The sign of `poly` at the sample point is not decided: the sign of a
/// coordinate is not fixed within `u64::MAX` bisection steps, or the
/// machine-sized numbers do not suffice, or the bounds leave it uncertain.
pub open spec fn mahler_undecided(poly: Polynomial, rv: Seq<RootView>) -> bool {
    ||| !(forall|i: int| 0 <= i < rv.len() ==> signed_within_limit(#[trigger] rv[i]))
    ||| exists|ranges: Seq<RangeModel>, t: Seq<(Seq<u32>, Q)>, perm: Seq<int>|
        #[trigger] mahler_inputs(poly.term_seq(), rv, ranges, t, perm) && (!mahler_fits(t, rv, ranges) || classify(
            terms_sum(t, rv, ranges, t.len()),
        ) is Uncertain)
}

/// The sign of `poly` is undecided after `j + k` refinement rounds of `rv`.
pub open spec fn undecided_after(poly: Polynomial, rv: Seq<RootView>, j: nat, k: nat) -> bool {
    mahler_undecided(poly, refine_rounds(rv, j + k))
}

/// The sign of `poly` stays undecided through the rounds `j` to
/// `j + u64::MAX` of refining `rv`.
pub open spec fn undecided_through(poly: Polynomial, rv: Seq<RootView>, j: nat) -> bool {
    forall|k: nat| k <= u64::MAX ==> #[trigger] undecided_after(poly, rv, j, k)
}

/// Refines every root that has an interval once, with Newton steps.
fn refine_all(sample: &mut Vec<Root>)
    ensures
        refines_all(roots_view(final(sample)@), roots_view(old(sample)@)),
        all_shaped(roots_view(final(sample)@)),
        roots_view(final(sample)@) == refine_round(roots_view(old(sample)@)),
{
    let ghost s0 = roots_view(sample@);
    let mut i: usize = 0;
    while i < sample.len()
        invariant
            i <= sample@.len(),
            s0.len() == sample@.len(),
            forall|k: int| 0 <= k < sample@.len() ==> within(#[trigger] roots_view(sample@)[k], s0[k]),
            forall|k: int| 0 <= k < i ==> root_shape(#[trigger] roots_view(sample@)[k]),
            forall|k: int| i <= k < sample@.len() ==> roots_view(sample@)[k] == #[trigger] s0[k],
            forall|k: int| 0 <= k < i ==> roots_view(sample@)[k] == refine_newton(#[trigger] s0[k]),
        decreases sample@.len() - i,
    {
        let ghost before = sample@;
        proof {
            assert(roots_view(sample@)[i as int] == sample@[i as int]@);
        }
        let current = &sample[i];
        proof {
            use_type_invariant(current);
        }
        match refine_root(current, true) {
            Some(refined) => {
                proof {
                    use_type_invariant(&refined);
                    lemma_refine_within_any(current@, refined@, true);
                    lemma_within_trans(refined@, current@, s0[i as int]);
                    assert(refined@ == refine_newton(current@));
                }
                sample.set(i, refined);
            },
            None => {
                proof {
                    lemma_within_refl(current@);
                }
            },
        }
        proof {
            assert forall|k: int| 0 <= k < sample@.len() implies within(#[trigger] roots_view(sample@)[k], s0[k]) by {
                if k != i {
                    assert(sample@[k] == before[k]);
                    assert(roots_view(before)[k] == roots_view(sample@)[k]);
                }
            }
            assert forall|k: int| 0 <= k < i + 1 implies root_shape(#[trigger] roots_view(sample@)[k]) by {
                if k != i {
                    assert(sample@[k] == before[k]);
                    assert(roots_view(before)[k] == roots_view(sample@)[k]);
                }
            }
            assert forall|k: int| i + 1 <= k < sample@.len() implies roots_view(sample@)[k] == #[trigger] s0[k] by {
                assert(sample@[k] == before[k]);
                assert(roots_view(before)[k] == roots_view(sample@)[k]);
            }
            assert forall|k: int| 0 <= k < i + 1 implies roots_view(sample@)[k] == refine_newton(#[trigger] s0[k]) by {
                if k != i {
                    assert(sample@[k] == before[k]);
                    assert(roots_view(before)[k] == roots_view(sample@)[k]);
                }
            }
        }
        i = i + 1;
    }
    assert(roots_view(sample@) =~= refine_round(s0));
}

/// Decides the sign conditions `poly op 0` one after another at the sample
/// point, refining the point until each sign is known. `Some(NoSolution)`
/// when a condition is decided false; `Some(Exist(refined))` when all hold;
/// `None` when the sign of a condition stays undecided through `u64::MAX`
/// further refinement rounds (`undecided_through`).
pub fn is_solution_by_interval(ineqs: &[(Polynomial, RelOp)], sample: &[Root]) -> (r: Option<Solution>)
    ensures
        r matches Some(Solution::Exist(s)) ==> refines_all(roots_view(s@), roots_view(sample@)) && forall|i: int|
            0 <= i < ineqs@.len() ==> #[trigger] holds_at(ineqs@[i], roots_view(sample@)),
        r matches Some(Solution::NoSolution) ==> exists|i: int, sv: Seq<RootView>, m: MahlerResult|
            0 <= i < ineqs@.len() && refines_all(sv, roots_view(sample@)) && #[trigger] decided(ineqs@[i].0, sv, m)
                && satisfies_spec(m, ineqs@[i].1) == Some(false),
        r is None ==> exists|q: int, j: nat|
            0 <= q < ineqs@.len() && #[trigger] undecided_through(ineqs@[q].0, roots_view(sample@), j),
{
    let ghost s0 = roots_view(sample@);
    let mut current: Vec<Root> = Vec::new();
    let mut i: usize = 0;
    while i < sample.len()
        invariant
            i <= sample@.len(),
            s0 == roots_view(sample@),
            current@.len() == i,
            forall|k: int| 0 <= k < i ==> #[trigger] roots_view(current@)[k] == s0[k],
            forall|k: int| 0 <= k < i ==> root_shape(#[trigger] roots_view(current@)[k]),
        decreases sample@.len() - i,
    {
        let x = sample[i].duplicate();
        proof {
            use_type_invariant(&x);
        }
        let ghost prev = current@;
        current.push(x);
        proof {
            assert forall|k: int| 0 <= k < i + 1 implies #[trigger] roots_view(current@)[k] == s0[k] && root_shape(
                roots_view(current@)[k],
            ) by {
                if k < i {
                    assert(current@[k] == prev[k]);
                    assert(roots_view(prev)[k] == roots_view(current@)[k]);
                }
            }
        }
        i = i + 1;
    }
    proof {
        assert forall|k: int| 0 <= k < s0.len() implies root_shape(#[trigger] s0[k]) by {
            assert(roots_view(current@)[k] == s0[k]);
        }
        assert forall|k: int| 0 <= k < s0.len() implies within(#[trigger] roots_view(current@)[k], s0[k]) by {
            assert(roots_view(current@)[k] == s0[k]);
            lemma_within_refl(s0[k]);
        }
        assert(roots_view(current@) =~= s0);
    }
    let ghost mut rounds: nat = 0;
    let mut q: usize = 0;
    while q < ineqs.len()
        invariant
            q <= ineqs@.len(),
            s0 == roots_view(sample@),
            refines_all(roots_view(current@), s0),
            all_shaped(roots_view(current@)),
            forall|k: int| 0 <= k < s0.len() ==> root_shape(#[trigger] s0[k]),
            forall|a: int| 0 <= a < q ==> #[trigger] holds_at(ineqs@[a], s0),
            roots_view(current@) == refine_rounds(s0, rounds),
        decreases ineqs@.len() - q,
    {
        let poly = &ineqs[q].0;
        let op = ineqs[q].1;
        let mut fuel: u64 = 0;
        let ghost j0 = rounds;
        loop
            invariant
                q < ineqs@.len(),
                rounds == j0 + fuel,
                roots_view(current@) == refine_rounds(s0, rounds),
                forall|k: nat| k < fuel ==> #[trigger] undecided_after(*poly, s0, j0, k),
                poly == ineqs@[q as int].0,
                op == ineqs@[q as int].1,
                s0 == roots_view(sample@),
                refines_all(roots_view(current@), s0),
                all_shaped(roots_view(current@)),
                forall|k: int| 0 <= k < s0.len() ==> root_shape(#[trigger] s0[k]),
            ensures
                holds_at(ineqs@[q as int], s0),
            decreases u64::MAX - fuel,
        {
            let m = evaluate_polynomial_by_mahler(poly, current.as_slice());
            match m.satisfies(op) {
                None => {
                    proof {
                        assert(undecided_after(*poly, s0, j0, fuel as nat));
                    }
                    if fuel == u64::MAX {
                        proof {
                            assert(undecided_through(ineqs@[q as int].0, s0, j0));
                        }
                        return None;
                    }
                    fuel = fuel + 1;
                    let ghost before = roots_view(current@);
                    refine_all(&mut current);
                    proof {
                        rounds = rounds + 1;
                        let after = roots_view(current@);
                        assert forall|k: int| 0 <= k < after.len() implies within(#[trigger] after[k], s0[k]) by {
                            lemma_within_trans(after[k], before[k], s0[k]);
                        }
                    }
                },
                Some(true) => {
                    proof {
                        assert(decided(*poly, roots_view(current@), m));
                        assert(refines_all(roots_view(current@), s0));
                    }
                    break;
                },
                Some(false) => {
                    proof {
                        assert(decided(*poly, roots_view(current@), m));
                        assert(refines_all(roots_view(current@), s0));
                    }
                    return Some(Solution::NoSolution);
                },
            }
        }
        q = q + 1;
    }
    Some(Solution::Exist(current))
}

/// The texts of the first `k` roots, separated by `, `.
pub open spec fn roots_text(rs: Seq<RootView>, k: nat) -> Seq<char>
    decreases k,
{
    if k == 0 || k > rs.len() {
        Seq::empty()
    } else if k == 1 {
        root_text(rs[0])
    } else {
        roots_text(rs, (k - 1) as nat) + seq![',', ' '] + root_text(rs[k - 1])
    }
}

/// The text of an answer: `No solution`, or `Exist: (` and the roots of the
/// sample point.
pub open spec fn solution_text(s: Solution) -> Seq<char> {
    match s {
        Solution::NoSolution => "No solution"@,
        Solution::Exist(v) => "Exist: ("@ + roots_text(roots_view(v@), v@.len()) + ")"@,
    }
}

impl Solution {
    /// The answer as text (`solution_text`).
    pub fn to_text(&self) -> (r: String)
        ensures
            r@ == solution_text(*self),
    {
        match self {
            Solution::NoSolution => String::from_str("No solution"),
            Solution::Exist(sample) => {
                let mut s = String::from_str("Exist: (");
                let ghost rv = roots_view(sample@);
                let mut i: usize = 0;
                while i < sample.len()
                    invariant
                        rv == roots_view(sample@),
                        i <= sample@.len(),
                        s@ == "Exist: ("@ + roots_text(rv, i as nat),
                    decreases sample@.len() - i,
                {
                    let ghost before = s@;
                    proof {
                        reveal_strlit(", ");
                        assert(rv[i as int] == sample@[i as int]@);
                    }
                    if i > 0 {
                        s.append(", ");
                    }
                    s.append(sample[i].to_text().as_str());
                    assert(s@ =~= "Exist: ("@ + roots_text(rv, (i + 1) as nat));
                    i = i + 1;
                }
                s.append(")");
                s
            },
        }
    }
}

/// A sample point as text: its roots in brackets, separated by `, `.
pub fn sample_point_to_string(sample: &[Root]) -> (r: String)
    ensures
        r@ == "("@ + roots_text(roots_view(sample@), sample@.len()) + ")"@,
{
    let mut s = String::from_str("(");
    let ghost rv = roots_view(sample@);
    let mut i: usize = 0;
    while i < sample.len()
        invariant
            rv == roots_view(sample@),
            i <= sample@.len(),
            s@ == "("@ + roots_text(rv, i as nat),
        decreases sample@.len() - i,
    {
        proof {
            reveal_strlit(", ");
            assert(rv[i as int] == sample@[i as int]@);
        }
        if i > 0 {
            s.append(", ");
        }
        s.append(sample[i].to_text().as_str());
        assert(s@ =~= "("@ + roots_text(rv, (i + 1) as nat));
        i = i + 1;
    }
    s.append(")");
    s
}

} // verus!
