//! Translation of parsed constraints into polynomials.
use crate::number::{qint, Q, Rat};
use crate::parser::ast::{Expr, Inequality, RelOp};
use crate::polynomial::{
    keys_within, lemma_map_add_terms_within, unit_exp, zero_exp, zeros, lemma_map_mul_within, lemma_terms_within_view, map_add_term, map_add_terms,
    map_mul, pair_fits, same_len, terms_neg, terms_within, Exponent, Polynomial,
};
use vstd::prelude::*;

verus! {

/// Strings in lexicographic order of their characters (a proper prefix first).
pub open spec fn str_lt(a: Seq<char>, b: Seq<char>) -> bool
    decreases a.len(),
{
    if a.len() == 0 {
        b.len() > 0
    } else if b.len() == 0 {
        false
    } else if a[0] < b[0] {
        true
    } else if a[0] > b[0] {
        false
    } else {
        str_lt(a.drop_first(), b.drop_first())
    }
}

/// Of two strings, one comes first unless they are equal.
pub proof fn lemma_str_lt_total(a: Seq<char>, b: Seq<char>)
    ensures
        a == b || str_lt(a, b) || str_lt(b, a),
        !(str_lt(a, b) && str_lt(b, a)),
        !str_lt(a, a),
    decreases a.len(),
{
    if a.len() > 0 && b.len() > 0 {
        lemma_str_lt_total(a.drop_first(), b.drop_first());
        if a[0] == b[0] && a.drop_first() == b.drop_first() {
            assert forall|i: int| 0 <= i < a.len() implies a[i] == b[i] by {
                if i > 0 {
                    assert(a[i] == a.drop_first()[i - 1]);
                    assert(b[i] == b.drop_first()[i - 1]);
                }
            }
            assert(a =~= b);
        }
    }
    if a.len() > 0 {
        lemma_str_lt_total(a.drop_first(), a.drop_first());
    }
    if a.len() == 0 && b.len() == 0 {
        assert(a =~= b);
    }
}

/// Whether `a` comes before `b`.
fn str_less(a: &String, b: &String) -> (r: bool)
    ensures
        r == str_lt(a@, b@),
{
    let x = a.as_str();
    let y = b.as_str();
    let n = x.unicode_len();
    let m = y.unicode_len();
    let mut i: usize = 0;
    assert(a@.skip(0) =~= a@);
    assert(b@.skip(0) =~= b@);
    while i < n && i < m
        invariant
            n == a@.len(),
            m == b@.len(),
            x@ == a@,
            y@ == b@,
            i <= n,
            i <= m,
            str_lt(a@, b@) == str_lt(a@.skip(i as int), b@.skip(i as int)),
        decreases n - i,
    {
        let c = x.get_char(i);
        let d = y.get_char(i);
        proof {
            assert(a@.skip(i as int)[0] == c);
            assert(b@.skip(i as int)[0] == d);
            assert(a@.skip(i as int).drop_first() =~= a@.skip(i + 1));
            assert(b@.skip(i as int).drop_first() =~= b@.skip(i + 1));
        }
        if c < d {
            return true;
        }
        if c > d {
            return false;
        }
        i = i + 1;
    }
    proof {
        assert(a@.skip(i as int).len() == n - i);
        assert(b@.skip(i as int).len() == m - i);
    }
    i == n && i < m
}

/// The variable `y` occurs in `e`.
pub open spec fn occurs(e: Expr, y: Seq<char>) -> bool
    decreases e,
{
    match e {
        Expr::Num(_) => false,
        Expr::Var(name) => name@ == y,
        Expr::Add(l, r) => occurs(*l, y) || occurs(*r, y),
        Expr::Sub(l, r) => occurs(*l, y) || occurs(*r, y),
        Expr::Mul(l, r) => occurs(*l, y) || occurs(*r, y),
        Expr::Pow(b, _) => occurs(*b, y),
        Expr::Neg(x) => occurs(*x, y),
    }
}

/// The views of a list of strings.
pub open spec fn strings_view(s: Seq<String>) -> Seq<Seq<char>> {
    s.map_values(|x: String| x@)
}

/// Each string comes before the next one.
pub open spec fn str_increasing(s: Seq<Seq<char>>) -> bool {
    forall|i: int| 0 <= i < s.len() - 1 ==> #[trigger] str_lt(s[i], s[i + 1])
}

/// Adds `x` to the increasing list unless it is there at its place.
fn insert_name(list: &mut Vec<String>, x: &String)
    requires
        str_increasing(strings_view(old(list)@)),
    ensures
        str_increasing(strings_view(final(list)@)),
        forall|y: Seq<char>| #[trigger] strings_view(final(list)@).contains(y) <==> strings_view(old(list)@).contains(y) || y
            == x@,
{
    let ghost v = strings_view(list@);
    let mut p: usize = 0;
    while p < list.len()
        invariant
            p <= list@.len(),
            v == strings_view(list@),
            forall|i: int| 0 <= i < p ==> str_lt(#[trigger] v[i], x@),
        ensures
            p <= list@.len(),
            forall|i: int| 0 <= i < p ==> str_lt(#[trigger] v[i], x@),
            p < list@.len() ==> !str_lt(v[p as int], x@),
        decreases list@.len() - p,
    {
        assert(v[p as int] == list@[p as int]@);
        if !str_less(&list[p], x) {
            break;
        }
        p = p + 1;
    }
    if p < list.len() && list[p] == *x {
        assert(v[p as int] == x@);
        return;
    }
    proof {
        if p < list@.len() {
            lemma_str_lt_total(v[p as int], x@);
            assert(v[p as int] != x@);
        }
    }
    let ghost pp = p as int;
    list.insert(p, x.clone());
    proof {
        let t = strings_view(list@);
        assert(t =~= v.insert(pp, x@));
        assert forall|i: int| 0 <= i < t.len() - 1 implies #[trigger] str_lt(t[i], t[i + 1]) by {
            if i + 1 < pp {
                assert(t[i] == v[i] && t[i + 1] == v[i + 1]);
                assert(str_lt(v[i], v[i + 1]));
            } else if i + 1 == pp {
                assert(t[i] == v[i]);
            } else if i == pp {
                assert(t[i + 1] == v[pp]);
            } else {
                assert(t[i] == v[i - 1] && t[i + 1] == v[i]);
                let j = i - 1;
                assert(str_lt(v[j], v[j + 1]));
            }
        }
        assert forall|y: Seq<char>| #[trigger] t.contains(y) <==> v.contains(y) || y == x@ by {
            if v.contains(y) {
                let k = choose|k: int| 0 <= k < v.len() && v[k] == y;
                if k < pp {
                    assert(t[k] == y);
                } else {
                    assert(t[k + 1] == y);
                }
            }
            if y == x@ {
                assert(t[pp] == y);
            }
            if t.contains(y) {
                let k = choose|k: int| 0 <= k < t.len() && t[k] == y;
                if k < pp {
                    assert(v[k] == y);
                } else if k > pp {
                    assert(v[k - 1] == y);
                }
            }
        }
    }
}

/// The variables of `expr`, sorted, each once.
pub fn extract_variables(expr: &Expr) -> (r: Vec<String>)
    ensures
        str_increasing(strings_view(r@)),
        forall|y: Seq<char>| #[trigger] strings_view(r@).contains(y) <==> occurs(*expr, y),
    decreases expr,
{
    match expr {
        Expr::Num(_) => {
            let r: Vec<String> = Vec::new();
            assert(strings_view(r@) =~= Seq::<Seq<char>>::empty());
            r
        },
        Expr::Var(name) => {
            let mut r: Vec<String> = Vec::new();
            r.push(name.clone());
            proof {
                assert(strings_view(r@) =~= seq![name@]);
                assert forall|y: Seq<char>| #[trigger] strings_view(r@).contains(y) <==> occurs(*expr, y) by {
                    if y == name@ {
                        assert(strings_view(r@)[0] == y);
                    }
                }
            }
            r
        },
        Expr::Add(lhs, rhs) | Expr::Sub(lhs, rhs) | Expr::Mul(lhs, rhs) => {
            let mut vars = extract_variables(lhs);
            let more = extract_variables(rhs);
            let mut i: usize = 0;
            while i < more.len()
                invariant
                    i <= more@.len(),
                    str_increasing(strings_view(vars@)),
                    forall|y: Seq<char>| #[trigger] strings_view(vars@).contains(y) <==> occurs(**lhs, y) || strings_view(
                        more@,
                    ).subrange(0, i as int).contains(y),
                decreases more@.len() - i,
            {
                let ghost before = strings_view(vars@);
                insert_name(&mut vars, &more[i]);
                proof {
                    let sm = strings_view(more@);
                    assert(sm[i as int] == more@[i as int]@);
                    let s1 = sm.subrange(0, i + 1);
                    let s0 = sm.subrange(0, i as int);
                    assert forall|y: Seq<char>| s1.contains(y) <==> s0.contains(y) || y == sm[i as int] by {
                        if s1.contains(y) {
                            let k = choose|k: int| 0 <= k < s1.len() && s1[k] == y;
                            if k < i {
                                assert(s0[k] == y);
                            }
                        }
                        if s0.contains(y) {
                            let k = choose|k: int| 0 <= k < s0.len() && s0[k] == y;
                            assert(s1[k] == y);
                        }
                        if y == sm[i as int] {
                            assert(s1[i as int] == y);
                        }
                    }
                }
                i = i + 1;
            }
            proof {
                assert(strings_view(more@).subrange(0, more@.len() as int) =~= strings_view(more@));
            }
            vars
        },
        Expr::Neg(e) | Expr::Pow(e, _) => extract_variables(e),
    }
}

/// The variables of both sides of `ineq`: those of the left side, then
/// those of the right side.
pub fn extract_variables_from_inequality(ineq: &Inequality) -> (r: Vec<String>)
    ensures
        exists|a: Seq<Seq<char>>, b: Seq<Seq<char>>|
            #![trigger a + b]
            strings_view(r@) == a + b && str_increasing(a) && str_increasing(b) && (forall|y: Seq<char>|
                #[trigger] a.contains(y) <==> occurs(ineq.left(), y)) && (forall|y: Seq<char>|
                #[trigger] b.contains(y) <==> occurs(ineq.right(), y)),
{
    let mut vars = extract_variables(ineq.get_left());
    let more = extract_variables(ineq.get_right());
    let ghost a = strings_view(vars@);
    let ghost b = strings_view(more@);
    let mut i: usize = 0;
    while i < more.len()
        invariant
            i <= more@.len(),
            b == strings_view(more@),
            strings_view(vars@) == a + b.subrange(0, i as int),
        decreases more@.len() - i,
    {
        let ghost prev = vars@;
        vars.push(more[i].clone());
        proof {
            assert(strings_view(vars@) =~= strings_view(prev).push(b[i as int]));
            assert(a + b.subrange(0, i + 1) =~= (a + b.subrange(0, i as int)).push(b[i as int]));
        }
        i = i + 1;
    }
    proof {
        assert(b.subrange(0, more@.len() as int) =~= b);
    }
    vars
}


// ---------------------------------------------------------------------------
// From syntax trees to polynomials
// ---------------------------------------------------------------------------
/// An expression that cannot be turned into a polynomial.
#[derive(Debug, PartialEq, Eq)]
pub enum GenError {
    /// The expression names a variable that the list of variables lacks.
    UndefinedVariable(String),
}

/// The constant polynomial `c` in `n` variables.
pub open spec fn const_poly(c: int, n: nat) -> Map<Seq<u32>, Q> {
    if c == 0 {
        Map::empty()
    } else {
        map![zero_exp(n) => qint(c)]
    }
}

/// The polynomial made of the `i`-th of `n` variables.
pub open spec fn var_poly(i: int, n: nat) -> Map<Seq<u32>, Q> {
    map![unit_exp(i, n) => qint(1)]
}

/// `i` is the first position of `name` in `vars`.
pub open spec fn var_index(vars: Seq<Seq<char>>, name: Seq<char>, i: int) -> bool {
    0 <= i < vars.len() && vars[i] == name && forall|j: int| 0 <= j < i ==> vars[j] != name
}

/// The first variable of `e`, read left to right, that `vars` lacks.
pub open spec fn first_undefined(e: Expr, vars: Seq<Seq<char>>) -> Option<Seq<char>>
    decreases e,
{
    match e {
        Expr::Num(_) => None,
        Expr::Var(name) => if vars.contains(name@) {
            None
        } else {
            Some(name@)
        },
        Expr::Add(l, r) => if first_undefined(*l, vars) is Some {
            first_undefined(*l, vars)
        } else {
            first_undefined(*r, vars)
        },
        Expr::Sub(l, r) => if first_undefined(*l, vars) is Some {
            first_undefined(*l, vars)
        } else {
            first_undefined(*r, vars)
        },
        Expr::Mul(l, r) => if first_undefined(*l, vars) is Some {
            first_undefined(*l, vars)
        } else {
            first_undefined(*r, vars)
        },
        Expr::Pow(b, _) => first_undefined(*b, vars),
        Expr::Neg(x) => first_undefined(*x, vars),
    }
}

/// A bound on every exponent entry met while the polynomial of `e` is
/// computed: its degree counted syntactically (the base of a zeroth power
/// still counts, being computed too).
pub open spec fn degree_bound(e: Expr) -> nat
    decreases e,
{
    match e {
        Expr::Num(_) => 0,
        Expr::Var(_) => 1,
        Expr::Add(l, r) => if degree_bound(*l) >= degree_bound(*r) {
            degree_bound(*l)
        } else {
            degree_bound(*r)
        },
        Expr::Sub(l, r) => if degree_bound(*l) >= degree_bound(*r) {
            degree_bound(*l)
        } else {
            degree_bound(*r)
        },
        Expr::Mul(l, r) => degree_bound(*l) + degree_bound(*r),
        Expr::Pow(b, k) => if k == 0 {
            degree_bound(*b)
        } else {
            k as nat * degree_bound(*b)
        },
        Expr::Neg(x) => degree_bound(*x),
    }
}

/// `qs` lists the powers `a`, `a * a`, `(a * a) * a`, ... of `a`, each taken
/// with `a` on the right.
pub open spec fn power_steps(a: Polynomial, qs: Seq<Polynomial>) -> bool {
    &&& qs.len() >= 1
    &&& qs[0].term_seq() == a.term_seq()
    &&& forall|i: int| 1 <= i < qs.len() ==> (#[trigger] qs[i])@ == map_mul(qs[i - 1].term_seq(), a.term_seq())
}

/// `p` is the `k`-th power of `a` in `n` variables.
pub open spec fn power_of(a: Polynomial, k: nat, n: nat, p: Polynomial) -> bool {
    if k == 0 {
        p@ == const_poly(1, n)
    } else {
        exists|qs: Seq<Polynomial>| #[trigger] power_steps(a, qs) && qs.len() == k && qs.last() == p
    }
}

/// The polynomials computed for an expression and its subexpressions.
pub enum Evaluation {
    Leaf(Polynomial),
    Unary(Polynomial, Box<Evaluation>),
    Binary(Polynomial, Box<Evaluation>, Box<Evaluation>),
}

impl Evaluation {
    /// The polynomial computed for the whole expression.
    pub open spec fn poly(self) -> Polynomial {
        match self {
            Evaluation::Leaf(p) => p,
            Evaluation::Unary(p, _) => p,
            Evaluation::Binary(p, _, _) => p,
        }
    }
}

/// `t` holds the polynomial of every subexpression of `e`, its variables
/// numbered by their first positions in `vars`: constants and variables are
/// monomials, and each operator is the polynomial operation applied to the
/// polynomials of its operands.
pub open spec fn evaluates(e: Expr, vars: Seq<Seq<char>>, t: Evaluation) -> bool
    decreases e,
{
    let n = vars.len();
    match e {
        Expr::Num(c) => t matches Evaluation::Leaf(p) && p@ == const_poly(c as int, n),
        Expr::Var(name) => t matches Evaluation::Leaf(p) && exists|i: int|
            #[trigger] var_index(vars, name@, i) && p@ == var_poly(i, n),
        Expr::Add(l, r) => t matches Evaluation::Binary(p, tl, tr) && evaluates(*l, vars, *tl) && evaluates(*r, vars, *tr)
            && p@ == map_add_terms(tl.poly()@, tr.poly().term_seq()),
        Expr::Sub(l, r) => t matches Evaluation::Binary(p, tl, tr) && evaluates(*l, vars, *tl) && evaluates(*r, vars, *tr)
            && p@ == map_add_terms(tl.poly()@, terms_neg(tr.poly().term_seq())),
        Expr::Mul(l, r) => t matches Evaluation::Binary(p, tl, tr) && evaluates(*l, vars, *tl) && evaluates(*r, vars, *tr)
            && p@ == map_mul(tl.poly().term_seq(), tr.poly().term_seq()),
        Expr::Pow(b, k) => t matches Evaluation::Unary(p, tb) && evaluates(*b, vars, *tb) && power_of(
            tb.poly(),
            k as nat,
            n,
            p,
        ),
        Expr::Neg(x) => t matches Evaluation::Unary(p, tx) && evaluates(*x, vars, *tx) && p.term_seq() == terms_neg(
            tx.poly().term_seq(),
        ),
    }
}

/// `p` is the polynomial that `e` denotes, its variables numbered by their
/// first positions in `vars`.
pub open spec fn denotes(e: Expr, vars: Seq<Seq<char>>, p: Polynomial) -> bool {
    exists|t: Evaluation| #[trigger] evaluates(e, vars, t) && t.poly() == p
}

proof fn lemma_keys_within_mono(m: Map<Seq<u32>, Q>, n: nat, d1: int, d2: int)
    requires
        keys_within(m, n, d1),
        d1 <= d2,
    ensures
        keys_within(m, n, d2),
{
    assert forall|k: Seq<u32>| #[trigger] m.contains_key(k) implies k.len() == n && forall|j: int| 0 <= j < n ==> k[j] <= d2 by {
        assert(forall|j: int| 0 <= j < n ==> k[j] <= d1);
    }
}

proof fn lemma_terms_neg_within(s: Seq<(Seq<u32>, Q)>, n: nat, d: int)
    requires
        terms_within(s, n, d),
    ensures
        terms_within(terms_neg(s), n, d),
{
    let t = terms_neg(s);
    assert forall|i: int| 0 <= i < t.len() implies (#[trigger] t[i].0).len() == n && forall|j: int|
        0 <= j < n ==> t[i].0[j] <= d by {
        assert(t[i].0 == s[i].0);
    }
}

proof fn lemma_within_product_fits(a: Seq<(Seq<u32>, Q)>, b: Seq<(Seq<u32>, Q)>, n: nat, da: int, db: int)
    requires
        terms_within(a, n, da),
        terms_within(b, n, db),
        da + db <= u32::MAX,
    ensures
        same_len(a, b),
        pair_fits(b, a),
{
    assert forall|i: int, j: int| 0 <= i < b.len() && 0 <= j < a.len() && 0 <= 0 implies #[trigger] a[j].0.len()
        == #[trigger] b[i].0.len() by {
        assert(a[j].0.len() == n);
        assert(b[i].0.len() == n);
    }
    assert forall|i: int, j: int, k: int| 0 <= i < b.len() && 0 <= j < a.len() && 0 <= k < b[i].0.len() implies b[i].0[k]
        + a[j].0[k] <= u32::MAX by {
        assert(b[i].0.len() == n);
        assert(b[i].0[k] <= db);
        assert(a[j].0[k] <= da);
    }
}

/// The polynomial made of the `var_id`-th of `var_num` variables.
fn gen_var(var_id: usize, var_num: usize) -> (r: Polynomial)
    requires
        var_id < var_num,
    ensures
        r@ == var_poly(var_id as int, var_num as nat),
{
    let mut p = Polynomial::zero();
    let mut exp_vec = zeros(var_num);
    exp_vec.set(var_id, 1);
    assert(exp_vec@ =~= unit_exp(var_id as int, var_num as nat));
    p.add_term(Exponent::new(exp_vec), Rat::from_i64(1));
    assert(p@ =~= var_poly(var_id as int, var_num as nat));
    p
}

/// The constant polynomial `c` in `var_num` variables.
fn gen_contant(c: i64, var_num: usize) -> (r: Polynomial)
    ensures
        r@ == const_poly(c as int, var_num as nat),
{
    let mut p = Polynomial::zero();
    let z = zeros(var_num);
    p.add_term(Exponent::new(z), Rat::from_i64(c));
    assert(p@ =~= const_poly(c as int, var_num as nat));
    p
}

/// The first position of `name` in `vars`.
fn find_var(vars: &[String], name: &String) -> (r: Option<usize>)
    ensures
        match r {
            Some(i) => var_index(strings_view(vars@), name@, i as int),
            None => !strings_view(vars@).contains(name@),
        },
{
    let ghost sv = strings_view(vars@);
    let mut i: usize = 0;
    while i < vars.len()
        invariant
            i <= vars@.len(),
            sv == strings_view(vars@),
            forall|j: int| 0 <= j < i ==> sv[j] != name@,
        decreases vars@.len() - i,
    {
        assert(sv[i as int] == vars@[i as int]@);
        if vars[i] == *name {
            return Some(i);
        }
        i = i + 1;
    }
    proof {
        if sv.contains(name@) {
            let k = choose|k: int| 0 <= k < sv.len() && sv[k] == name@;
            assert(sv[k] != name@);
        }
    }
    None
}

/// The polynomial that `expr` denotes, its variables numbered by their first
/// positions in `vars`; the first variable that `vars` lacks is an error.
pub fn ast_to_polynomial_using_map(expr: &Expr, vars: &[String]) -> (r: Result<Polynomial, GenError>)
    requires
        degree_bound(*expr) <= u32::MAX,
    ensures
        match r {
            Ok(p) => first_undefined(*expr, strings_view(vars@)) is None && denotes(*expr, strings_view(vars@), p)
                && keys_within(p@, vars@.len(), degree_bound(*expr) as int),
            Err(GenError::UndefinedVariable(s)) => first_undefined(*expr, strings_view(vars@)) == Some(s@),
        },
    decreases expr,
{
    let ghost sv = strings_view(vars@);
    let n = vars.len();
    let ghost nn = n as nat;
    match expr {
        Expr::Num(c) => {
            let p = gen_contant(*c, n);
            proof {
                assert(keys_within(p@, nn, 0));
                assert(evaluates(*expr, sv, Evaluation::Leaf(p)));
            }
            Ok(p)
        },
        Expr::Var(name) => {
            match find_var(vars, name) {
                Some(i) => {
                    let p = gen_var(i, n);
                    proof {
                        assert(var_index(sv, name@, i as int));
                        assert(sv.contains(name@)) by {
                            assert(sv[i as int] == name@);
                        }
                        assert forall|k: Seq<u32>| #[trigger] p@.contains_key(k) implies k.len() == nn && forall|j: int|
                            0 <= j < nn ==> k[j] <= 1 by {
                            assert(k == unit_exp(i as int, nn));
                        }
                        assert(evaluates(*expr, sv, Evaluation::Leaf(p)));
                    }
                    Ok(p)
                },
                None => Err(GenError::UndefinedVariable(name.clone())),
            }
        },
        Expr::Add(lhs, rhs) => {
            let a = match ast_to_polynomial_using_map(lhs, vars) {
                Ok(p) => p,
                Err(e) => {
                    return Err(e);
                },
            };
            let b = match ast_to_polynomial_using_map(rhs, vars) {
                Ok(p) => p,
                Err(e) => {
                    return Err(e);
                },
            };
            let r = a.add(&b);
            proof {
                let d = degree_bound(*expr) as int;
                use_type_invariant(&b);
                lemma_keys_within_mono(a@, nn, degree_bound(**lhs) as int, d);
                lemma_keys_within_mono(b@, nn, degree_bound(**rhs) as int, d);
                lemma_terms_within_view(b, nn, d);
                lemma_map_add_terms_within(a@, b.term_seq(), nn, d);
                let tl = choose|t: Evaluation| evaluates(**lhs, sv, t) && t.poly() == a;
                let tr = choose|t: Evaluation| evaluates(**rhs, sv, t) && t.poly() == b;
                assert(evaluates(*expr, sv, Evaluation::Binary(r, Box::new(tl), Box::new(tr))));
            }
            Ok(r)
        },
        Expr::Sub(lhs, rhs) => {
            let a = match ast_to_polynomial_using_map(lhs, vars) {
                Ok(p) => p,
                Err(e) => {
                    return Err(e);
                },
            };
            let b = match ast_to_polynomial_using_map(rhs, vars) {
                Ok(p) => p,
                Err(e) => {
                    return Err(e);
                },
            };
            let r = a.sub(&b);
            proof {
                let d = degree_bound(*expr) as int;
                use_type_invariant(&b);
                lemma_keys_within_mono(a@, nn, degree_bound(**lhs) as int, d);
                lemma_keys_within_mono(b@, nn, degree_bound(**rhs) as int, d);
                lemma_terms_within_view(b, nn, d);
                lemma_terms_neg_within(b.term_seq(), nn, d);
                lemma_map_add_terms_within(a@, terms_neg(b.term_seq()), nn, d);
                let tl = choose|t: Evaluation| evaluates(**lhs, sv, t) && t.poly() == a;
                let tr = choose|t: Evaluation| evaluates(**rhs, sv, t) && t.poly() == b;
                assert(evaluates(*expr, sv, Evaluation::Binary(r, Box::new(tl), Box::new(tr))));
            }
            Ok(r)
        },
        Expr::Mul(lhs, rhs) => {
            let a = match ast_to_polynomial_using_map(lhs, vars) {
                Ok(p) => p,
                Err(e) => {
                    return Err(e);
                },
            };
            let b = match ast_to_polynomial_using_map(rhs, vars) {
                Ok(p) => p,
                Err(e) => {
                    return Err(e);
                },
            };
            let ghost da = degree_bound(**lhs) as int;
            let ghost db = degree_bound(**rhs) as int;
            proof {
                use_type_invariant(&a);
                use_type_invariant(&b);
                lemma_terms_within_view(a, nn, da);
                lemma_terms_within_view(b, nn, db);
                lemma_within_product_fits(a.term_seq(), b.term_seq(), nn, da, db);
            }
            let r = a.mul(&b);
            proof {
                lemma_map_mul_within(a.term_seq(), b.term_seq(), nn, da, db);
                let tl = choose|t: Evaluation| evaluates(**lhs, sv, t) && t.poly() == a;
                let tr = choose|t: Evaluation| evaluates(**rhs, sv, t) && t.poly() == b;
                assert(evaluates(*expr, sv, Evaluation::Binary(r, Box::new(tl), Box::new(tr))));
            }
            Ok(r)
        },
        Expr::Neg(x) => {
            let a = match ast_to_polynomial_using_map(x, vars) {
                Ok(p) => p,
                Err(e) => {
                    return Err(e);
                },
            };
            let r = a.neg();
            proof {
                let d = degree_bound(*expr) as int;
                use_type_invariant(&a);
                use_type_invariant(&r);
                lemma_terms_within_view(a, nn, d);
                lemma_terms_neg_within(a.term_seq(), nn, d);
                lemma_terms_within_view(r, nn, d);
                let tx = choose|t: Evaluation| evaluates(**x, sv, t) && t.poly() == a;
                assert(evaluates(*expr, sv, Evaluation::Unary(r, Box::new(tx))));
            }
            Ok(r)
        },
        Expr::Pow(base, k) => {
            proof {
                let d0 = degree_bound(**base);
                if *k != 0 {
                    assert(d0 <= (*k) as nat * d0) by (nonlinear_arith)
                        requires
                            *k >= 1,
                    ;
                }
            }
            let b = match ast_to_polynomial_using_map(base, vars) {
                Ok(p) => p,
                Err(e) => {
                    return Err(e);
                },
            };
            let ghost db = degree_bound(**base) as int;
            let ghost tb = choose|t: Evaluation| evaluates(**base, sv, t) && t.poly() == b;
            if *k == 0 {
                let p = gen_contant(1, n);
                proof {
                    assert forall|kk: Seq<u32>| #[trigger] p@.contains_key(kk) implies kk.len() == nn && forall|j: int|
                        0 <= j < nn ==> kk[j] <= 0 by {
                        assert(kk == zero_exp(nn));
                    }
                    assert(evaluates(*expr, sv, Evaluation::Unary(p, Box::new(tb))));
                }
                return Ok(p);
            }
            proof {
                use_type_invariant(&b);
                lemma_terms_within_view(b, nn, db);
            }
            let mut acc = b.duplicate();
            let ghost mut chain: Seq<Polynomial> = seq![acc];
            let mut i: usize = 1;
            while i < *k
                invariant
                    1 <= i <= *k,
                    n == vars@.len(),
                    nn == n,
                    db >= 0,
                    (*k) * db <= u32::MAX,
                    terms_within(b.term_seq(), nn, db),
                    power_steps(b, chain),
                    chain.len() == i,
                    chain.last() == acc,
                    keys_within(acc@, nn, i * db),
                decreases *k - i,
            {
                proof {
                    use_type_invariant(&acc);
                    lemma_terms_within_view(acc, nn, i * db);
                    assert((i + 1) * db <= (*k) * db) by (nonlinear_arith)
                        requires
                            i + 1 <= *k,
                            db >= 0,
                    ;
                    assert((i + 1) * db == i * db + db) by (nonlinear_arith);
                    lemma_within_product_fits(acc.term_seq(), b.term_seq(), nn, i * db, db);
                }
                let next = acc.mul(&b);
                proof {
                    lemma_map_mul_within(acc.term_seq(), b.term_seq(), nn, i * db, db);
                    let old_chain = chain;
                    chain = chain.push(next);
                    assert forall|j: int| 1 <= j < chain.len() implies (#[trigger] chain[j])@ == map_mul(
                        chain[j - 1].term_seq(),
                        b.term_seq(),
                    ) by {
                        if j < old_chain.len() {
                            assert(chain[j] == old_chain[j]);
                            assert(chain[j - 1] == old_chain[j - 1]);
                        } else {
                            assert(chain[j - 1] == old_chain.last());
                        }
                    }
                }
                acc = next;
                i = i + 1;
            }
            proof {
                assert(power_of(b, *k as nat, nn, acc));
                assert(evaluates(*expr, sv, Evaluation::Unary(acc, Box::new(tb))));
                assert(degree_bound(*expr) == *k as nat * degree_bound(**base));
            }
            Ok(acc)
        },
    }
}

/// The first variable of `ineq`, its left side read first, that `vars` lacks.
pub open spec fn ineq_first_undefined(ineq: Inequality, vars: Seq<Seq<char>>) -> Option<Seq<char>> {
    if first_undefined(ineq.left(), vars) is Some {
        first_undefined(ineq.left(), vars)
    } else {
        first_undefined(ineq.right(), vars)
    }
}

/// `p` is the left side of `ineq` minus its right side, as polynomials.
pub open spec fn ineq_denotes(ineq: Inequality, vars: Seq<Seq<char>>, p: Polynomial) -> bool {
    exists|a: Polynomial, b: Polynomial|
        #![trigger denotes(ineq.left(), vars, a), denotes(ineq.right(), vars, b)]
        denotes(ineq.left(), vars, a) && denotes(ineq.right(), vars, b) && p@ == map_add_terms(a@, terms_neg(b.term_seq()))
}

/// The exponents met while both sides of `ineq` are computed fit in `u32`.
pub open spec fn ineq_in_range(ineq: Inequality) -> bool {
    degree_bound(ineq.left()) <= u32::MAX && degree_bound(ineq.right()) <= u32::MAX
}

/// The constraint `ineq` as the polynomial `left - right` with its comparison.
pub fn ineq_to_polynomial_using_map(ineq: &Inequality, vars: &[String]) -> (r: Result<(Polynomial, RelOp), GenError>)
    requires
        ineq_in_range(*ineq),
    ensures
        match r {
            Ok((p, op)) => op == ineq.op() && ineq_first_undefined(*ineq, strings_view(vars@)) is None && ineq_denotes(
                *ineq,
                strings_view(vars@),
                p,
            ),
            Err(GenError::UndefinedVariable(s)) => ineq_first_undefined(*ineq, strings_view(vars@)) == Some(s@),
        },
{
    let left_poly = match ast_to_polynomial_using_map(ineq.get_left(), vars) {
        Ok(p) => p,
        Err(e) => {
            return Err(e);
        },
    };
    let right_poly = match ast_to_polynomial_using_map(ineq.get_right(), vars) {
        Ok(p) => p,
        Err(e) => {
            return Err(e);
        },
    };
    let poly = left_poly.sub(&right_poly);
    Ok((poly, ineq.get_op()))
}

/// Some constraint among the first `k` of `ineqs` mentions the variable `y`.
pub open spec fn mentions(ineqs: Seq<Inequality>, k: int, y: Seq<char>) -> bool {
    exists|i: int| 0 <= i < k && (occurs(#[trigger] ineqs[i].left(), y) || occurs(ineqs[i].right(), y))
}

/// No variable of `e` is missing from `vars` when all of them are there.
proof fn lemma_first_undefined_none(e: Expr, vars: Seq<Seq<char>>)
    requires
        forall|y: Seq<char>| occurs(e, y) ==> vars.contains(y),
    ensures
        first_undefined(e, vars) is None,
    decreases e,
{
    match e {
        Expr::Num(_) => {},
        Expr::Var(name) => {
            assert(occurs(e, name@));
        },
        Expr::Add(l, r) => {
            lemma_first_undefined_none(*l, vars);
            lemma_first_undefined_none(*r, vars);
        },
        Expr::Sub(l, r) => {
            lemma_first_undefined_none(*l, vars);
            lemma_first_undefined_none(*r, vars);
        },
        Expr::Mul(l, r) => {
            lemma_first_undefined_none(*l, vars);
            lemma_first_undefined_none(*r, vars);
        },
        Expr::Pow(b, _) => {
            lemma_first_undefined_none(*b, vars);
        },
        Expr::Neg(x) => {
            lemma_first_undefined_none(*x, vars);
        },
    }
}

/// The constraints as polynomials `left - right` with their comparisons,
/// over the variables that they mention, sorted and each counted once.
pub fn ast_to_polynomial(expr: &[Inequality]) -> (r: Result<Vec<(Polynomial, RelOp)>, GenError>)
    requires
        forall|i: int| 0 <= i < expr@.len() ==> ineq_in_range(#[trigger] expr@[i]),
    ensures
        r matches Ok(v) && v@.len() == expr@.len() && exists|vars: Seq<Seq<char>>|
            {
                &&& str_increasing(vars)
                &&& forall|y: Seq<char>| #[trigger] vars.contains(y) <==> mentions(expr@, expr@.len() as int, y)
                &&& forall|i: int|
                    0 <= i < v@.len() ==> #[trigger] v@[i].1 == expr@[i].op() && ineq_denotes(expr@[i], vars, v@[i].0)
            },
{
    let mut vars: Vec<String> = Vec::new();
    let mut i: usize = 0;
    while i < expr.len()
        invariant
            i <= expr@.len(),
            str_increasing(strings_view(vars@)),
            forall|y: Seq<char>| #[trigger] strings_view(vars@).contains(y) <==> mentions(expr@, i as int, y),
        decreases expr@.len() - i,
    {
        let vs = extract_variables_from_inequality(&expr[i]);
        let ghost e = expr@[i as int];
        let ghost sw = strings_view(vs@);
        proof {
            let (a, b) = choose|a: Seq<Seq<char>>, b: Seq<Seq<char>>|
                #![trigger a + b]
                sw == a + b && str_increasing(a) && str_increasing(b) && (forall|y: Seq<char>|
                    #[trigger] a.contains(y) <==> occurs(e.left(), y)) && (forall|y: Seq<char>|
                    #[trigger] b.contains(y) <==> occurs(e.right(), y));
            assert forall|y: Seq<char>| #[trigger] sw.contains(y) <==> occurs(e.left(), y) || occurs(e.right(), y) by {
                if sw.contains(y) {
                    let k = choose|k: int| 0 <= k < sw.len() && sw[k] == y;
                    if k < a.len() {
                        assert(a[k] == y);
                        assert(a.contains(y));
                    } else {
                        assert(b[k - a.len()] == y);
                        assert(b.contains(y));
                    }
                }
                if occurs(e.left(), y) {
                    assert(a.contains(y));
                    let k = choose|k: int| 0 <= k < a.len() && a[k] == y;
                    assert(sw[k] == y);
                }
                if occurs(e.right(), y) {
                    assert(b.contains(y));
                    let k = choose|k: int| 0 <= k < b.len() && b[k] == y;
                    assert(sw[k + a.len()] == y);
                }
            }
        }
        let mut j: usize = 0;
        while j < vs.len()
            invariant
                i < expr@.len(),
                e == expr@[i as int],
                j <= vs@.len(),
                sw == strings_view(vs@),
                str_increasing(strings_view(vars@)),
                forall|y: Seq<char>| #[trigger] sw.contains(y) <==> occurs(e.left(), y) || occurs(e.right(), y),
                forall|y: Seq<char>| #[trigger] strings_view(vars@).contains(y) <==> mentions(expr@, i as int, y)
                    || sw.subrange(0, j as int).contains(y),
            decreases vs@.len() - j,
        {
            insert_name(&mut vars, &vs[j]);
            proof {
                assert(sw[j as int] == vs@[j as int]@);
                let s1 = sw.subrange(0, j + 1);
                let s0 = sw.subrange(0, j as int);
                assert forall|y: Seq<char>| s1.contains(y) <==> s0.contains(y) || y == sw[j as int] by {
                    if s1.contains(y) {
                        let k = choose|k: int| 0 <= k < s1.len() && s1[k] == y;
                        if k < j {
                            assert(s0[k] == y);
                        }
                    }
                    if s0.contains(y) {
                        let k = choose|k: int| 0 <= k < s0.len() && s0[k] == y;
                        assert(s1[k] == y);
                    }
                    if y == sw[j as int] {
                        assert(s1[j as int] == y);
                    }
                }
            }
            j = j + 1;
        }
        proof {
            assert(sw.subrange(0, vs@.len() as int) =~= sw);
            assert forall|y: Seq<char>| #[trigger] strings_view(vars@).contains(y) <==> mentions(expr@, i + 1, y) by {
                if mentions(expr@, i + 1, y) {
                    let k = choose|k: int| 0 <= k < i + 1 && (occurs(#[trigger] expr@[k].left(), y) || occurs(expr@[k].right(), y));
                    if k < i {
                        assert(mentions(expr@, i as int, y));
                    }
                }
                if mentions(expr@, i as int, y) {
                    let k = choose|k: int| 0 <= k < i && (occurs(#[trigger] expr@[k].left(), y) || occurs(expr@[k].right(), y));
                    assert(occurs(expr@[k].left(), y) || occurs(expr@[k].right(), y));
                }
                if sw.contains(y) {
                    assert(occurs(expr@[i as int].left(), y) || occurs(expr@[i as int].right(), y));
                }
            }
        }
        i = i + 1;
    }
    let ghost sv = strings_view(vars@);
    let mut out: Vec<(Polynomial, RelOp)> = Vec::new();
    let mut i: usize = 0;
    while i < expr.len()
        invariant
            i <= expr@.len(),
            sv == strings_view(vars@),
            forall|y: Seq<char>| #[trigger] sv.contains(y) <==> mentions(expr@, expr@.len() as int, y),
            forall|k: int| 0 <= k < expr@.len() ==> ineq_in_range(#[trigger] expr@[k]),
            out@.len() == i,
            forall|k: int| 0 <= k < i ==> #[trigger] out@[k].1 == expr@[k].op() && ineq_denotes(expr@[k], sv, out@[k].0),
        decreases expr@.len() - i,
    {
        let ghost e = expr@[i as int];
        proof {
            assert(ineq_in_range(e));
            assert forall|y: Seq<char>| occurs(e.left(), y) implies sv.contains(y) by {
                assert(mentions(expr@, expr@.len() as int, y));
            }
            assert forall|y: Seq<char>| occurs(e.right(), y) implies sv.contains(y) by {
                assert(mentions(expr@, expr@.len() as int, y));
            }
            lemma_first_undefined_none(e.left(), sv);
            lemma_first_undefined_none(e.right(), sv);
        }
        match ineq_to_polynomial_using_map(&expr[i], vars.as_slice()) {
            Ok(x) => {
                out.push(x);
            },
            Err(err) => {
                return Err(err);
            },
        }
        i = i + 1;
    }
    Ok(out)
}

} // verus!
