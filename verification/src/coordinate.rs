//! Polynomial equations that place the nodes of a graph in the plane with
//! every edge of unit length.
use crate::graph::{Graph, NodeId};
use crate::groebner::{all_in_vars, buchberger_closed, groebner_basis, in_vars, inter_reduced, same_polys, views};
use crate::number::{qint, Q, Rat};
use crate::polynomial::{unit_exp, zero_exp, Exponent, Polynomial};
use vstd::prelude::*;

verus! {

/// The monomial `v_x * v_y` among `2 n` variables (`v_x^2` when `x == y`).
fn xy_term(n: usize, x: usize, y: usize) -> (r: Exponent)
    requires
        n * 2 <= usize::MAX,
        x < n * 2,
        y < n * 2,
    ensures
        r@.len() == n * 2,
        forall|k: int| 0 <= k < n * 2 ==> #[trigger] r@[k] == (if k == x { 1u32 } else { 0u32 }) + (if k == y { 1u32 } else { 0u32 }),
{
    let m = n * 2;
    let mut exponents: Vec<u32> = Vec::new();
    let mut k: usize = 0;
    while k < m
        invariant
            k <= m,
            m == n * 2,
            exponents@.len() == k,
            forall|j: int| 0 <= j < k ==> #[trigger] exponents@[j] == 0,
        decreases m - k,
    {
        exponents.push(0);
        k = k + 1;
    }
    exponents.set(x, exponents[x] + 1);
    exponents.set(y, exponents[y] + 1);
    Exponent::new(exponents)
}

/// The monomial `v_x` among `2 n` variables.
fn x_term(n: usize, x: usize) -> (r: Exponent)
    requires
        n * 2 <= usize::MAX,
        x < n * 2,
    ensures
        r@.len() == n * 2,
        forall|k: int| 0 <= k < n * 2 ==> #[trigger] r@[k] == if k == x { 1u32 } else { 0u32 },
{
    let m = n * 2;
    let mut exponents: Vec<u32> = Vec::new();
    let mut k: usize = 0;
    while k < m
        invariant
            k <= m,
            m == n * 2,
            exponents@.len() == k,
            forall|j: int| 0 <= j < k ==> #[trigger] exponents@[j] == 0,
        decreases m - k,
    {
        exponents.push(0);
        k = k + 1;
    }
    exponents.set(x, 1);
    Exponent::new(exponents)
}

/// The constant monomial among `2 n` variables.
fn constant_term(n: usize) -> (r: Exponent)
    requires
        n * 2 <= usize::MAX,
    ensures
        r@.len() == n * 2,
        forall|k: int| 0 <= k < n * 2 ==> #[trigger] r@[k] == 0,
{
    let m = n * 2;
    let mut exponents: Vec<u32> = Vec::new();
    let mut k: usize = 0;
    while k < m
        invariant
            k <= m,
            m == n * 2,
            exponents@.len() == k,
            forall|j: int| 0 <= j < k ==> #[trigger] exponents@[j] == 0,
        decreases m - k,
    {
        exponents.push(0);
        k = k + 1;
    }
    Exponent::new(exponents)
}

/// The exponent vector of `v_a * v_b` among `n2` variables.
pub open spec fn mono(n2: nat, a: int, b: int) -> Seq<u32> {
    Seq::new(n2, |k: int| ((if k == a { 1u32 } else { 0u32 }) + (if k == b { 1u32 } else { 0u32 })) as u32)
}

/// `(x_u - x_v)^2 + (y_u - y_v)^2 - 1` where node `w` has the coordinates
/// `x_w = v_(2w)` and `y_w = v_(2w+1)` among `n2` variables.
pub open spec fn edge_poly(n2: nat, u: int, v: int) -> Map<Seq<u32>, Q> {
    map![
        mono(n2, 2 * u, 2 * u) => qint(1),
        mono(n2, 2 * u + 1, 2 * u + 1) => qint(1),
        mono(n2, 2 * v, 2 * v) => qint(1),
        mono(n2, 2 * v + 1, 2 * v + 1) => qint(1),
        mono(n2, 2 * u, 2 * v) => qint(-2),
        mono(n2, 2 * u + 1, 2 * v + 1) => qint(-2),
        zero_exp(n2) => qint(-1)
    ]
}

/// The pairs `(u, v)` with `v` in `s` and `u < v`, in the order of `s`.
pub open spec fn forward_nbrs(u: nat, s: Seq<nat>) -> Seq<(nat, nat)>
    decreases s.len(),
{
    if s.len() == 0 {
        Seq::empty()
    } else if u < s.last() {
        forward_nbrs(u, s.drop_last()).push((u, s.last()))
    } else {
        forward_nbrs(u, s.drop_last())
    }
}

/// The edges `(u, v)` with `u < v` and `u` below `k`: node by node, each
/// node's neighbours in their order.
pub open spec fn edge_list(g: Graph, k: nat) -> Seq<(nat, nat)>
    decreases k,
{
    if k == 0 {
        Seq::empty()
    } else {
        edge_list(g, (k - 1) as nat) + forward_nbrs((k - 1) as nat, g.nbrs(k - 1))
    }
}

/// The unit-length equations of a list of edges.
pub open spec fn edge_maps(n2: nat, es: Seq<(nat, nat)>) -> Seq<Map<Seq<u32>, Q>> {
    es.map_values(|e: (nat, nat)| edge_poly(n2, e.0 as int, e.1 as int))
}

/// The least entry of a non-empty list.
pub open spec fn seq_min(s: Seq<nat>) -> nat
    decreases s.len(),
{
    if s.len() <= 1 {
        s[0]
    } else if s.last() < seq_min(s.drop_last()) {
        s.last()
    } else {
        seq_min(s.drop_last())
    }
}

/// The equations that place the nodes of `g` in the plane with every edge
/// of length 1: one per edge `(u, v)` with `u < v`, listed by `edge_list`;
/// then, when there are nodes, `x_0` and `y_0` (node 0 at the origin); then,
/// when node 0 has neighbours, `x_m` and `y_m - 1` for its least neighbour
/// `m` (that node at `(0, 1)`, on an axis through node 0).
pub open spec fn constraint_maps(g: Graph) -> Seq<Map<Seq<u32>, Q>> {
    let n = g.num_nodes();
    let n2 = 2 * n;
    let edges = edge_maps(n2, edge_list(g, n));
    if n == 0 {
        edges
    } else {
        let anchored = edges.push(map![unit_exp(0, n2) => qint(1)]).push(map![unit_exp(1, n2) => qint(1)]);
        if g.nbrs(0).len() == 0 {
            anchored
        } else {
            let m = seq_min(g.nbrs(0));
            anchored.push(map![unit_exp(2 * m as int, n2) => qint(1)]).push(
                map![unit_exp(2 * m as int + 1, n2) => qint(1), zero_exp(n2) => qint(-1)],
            )
        }
    }
}

/// The unit-length equation of the edge `(u, v)`.
fn edge_polynomial(n: usize, u: usize, v: usize) -> (p: Polynomial)
    requires
        n * 2 <= usize::MAX,
        u < n,
        v < n,
        u != v,
    ensures
        p@ == edge_poly((n * 2) as nat, u as int, v as int),
        in_vars(p@, (n * 2) as nat),
{
    let ghost n2 = (n * 2) as nat;
    let one = Rat::from_i64(1);
    let minus_one = Rat::from_i64(-1);
    let minus_two = Rat::from_i64(-2);
    let x_node = u * 2;
    let y_node = u * 2 + 1;
    let x_neighbor = v * 2;
    let y_neighbor = v * 2 + 1;
    let ghost k1 = mono(n2, 2 * u, 2 * u);
    let ghost k2 = mono(n2, 2 * u + 1, 2 * u + 1);
    let ghost k3 = mono(n2, 2 * v, 2 * v);
    let ghost k4 = mono(n2, 2 * v + 1, 2 * v + 1);
    let ghost k5 = mono(n2, 2 * u, 2 * v);
    let ghost k6 = mono(n2, 2 * u + 1, 2 * v + 1);
    let ghost k7 = zero_exp(n2);
    proof {
        let (a, b, c, d) = (2 * u, 2 * u + 1, 2 * v, 2 * v + 1);
        assert(k1[a] == 2 && k1[b] == 0 && k1[c] == 0 && k1[d] == 0);
        assert(k2[a] == 0 && k2[b] == 2 && k2[c] == 0 && k2[d] == 0);
        assert(k3[a] == 0 && k3[b] == 0 && k3[c] == 2 && k3[d] == 0);
        assert(k4[a] == 0 && k4[b] == 0 && k4[c] == 0 && k4[d] == 2);
        assert(k5[a] == 1 && k5[b] == 0 && k5[c] == 1 && k5[d] == 0);
        assert(k6[a] == 0 && k6[b] == 1 && k6[c] == 0 && k6[d] == 1);
        assert(k7[a] == 0 && k7[b] == 0 && k7[c] == 0 && k7[d] == 0);
    }
    let mut p = Polynomial::zero();
    let e1 = xy_term(n, x_node, x_node);
    assert(e1@ =~= k1);
    p.add_term(e1, one.duplicate());
    let e2 = xy_term(n, y_node, y_node);
    assert(e2@ =~= k2);
    p.add_term(e2, one.duplicate());
    let e3 = xy_term(n, x_neighbor, x_neighbor);
    assert(e3@ =~= k3);
    p.add_term(e3, one.duplicate());
    let e4 = xy_term(n, y_neighbor, y_neighbor);
    assert(e4@ =~= k4);
    p.add_term(e4, one.duplicate());
    let e5 = xy_term(n, x_node, x_neighbor);
    assert(e5@ =~= k5);
    p.add_term(e5, minus_two.duplicate());
    let e6 = xy_term(n, y_node, y_neighbor);
    assert(e6@ =~= k6);
    p.add_term(e6, minus_two.duplicate());
    let e7 = constant_term(n);
    assert(e7@ =~= k7);
    p.add_term(e7, minus_one.duplicate());
    assert(p@ =~= edge_poly(n2, u as int, v as int));
    proof {
        assert forall|k: Seq<u32>| #[trigger] p@.contains_key(k) implies k.len() == n2 && forall|j: int|
            0 <= j < n2 ==> k[j] <= u32::MAX as int by {}
    }
    p
}

/// The polynomial `v_i + c` among `n2` variables.
fn shifted_variable(n: usize, i: usize, c: i64) -> (p: Polynomial)
    requires
        n * 2 <= usize::MAX,
        i < n * 2,
    ensures
        c == 0 ==> p@ == map![unit_exp(i as int, (n * 2) as nat) => qint(1)],
        c != 0 ==> p@ == map![unit_exp(i as int, (n * 2) as nat) => qint(1), zero_exp((n * 2) as nat) => qint(c as int)],
        in_vars(p@, (n * 2) as nat),
{
    let ghost n2 = (n * 2) as nat;
    let mut p = Polynomial::zero();
    let e = x_term(n, i);
    assert(e@ =~= unit_exp(i as int, n2));
    p.add_term(e, Rat::from_i64(1));
    if c != 0 {
        let z = constant_term(n);
        assert(z@ =~= zero_exp(n2));
        assert(unit_exp(i as int, n2)[i as int] == 1u32);
        assert(zero_exp(n2)[i as int] == 0u32);
        p.add_term(z, Rat::from_i64(c));
    }
    proof {
        if c == 0 {
            assert(p@ =~= map![unit_exp(i as int, n2) => qint(1)]);
        } else {
            assert(p@ =~= map![unit_exp(i as int, n2) => qint(1), zero_exp(n2) => qint(c as int)]);
        }
        assert forall|k: Seq<u32>| #[trigger] p@.contains_key(k) implies k.len() == n2 && forall|j: int|
            0 <= j < n2 ==> k[j] <= u32::MAX as int by {}
    }
    p
}

/// The equations of `constraint_maps`, as polynomials.
fn isometry_constraints(graph: &Graph) -> (r: Vec<Polynomial>)
    requires
        graph.num_nodes() * 2 <= usize::MAX,
    ensures
        views(r@) == constraint_maps(*graph),
        all_in_vars(r@, 2 * graph.num_nodes()),
{
    proof {
        use_type_invariant(graph);
        graph.lemma_wf();
    }
    let n = graph.get_node_num();
    let ghost n2 = (n * 2) as nat;
    let nodes = graph.iter_nodes();
    let mut polynomials: Vec<Polynomial> = Vec::new();
    assert(crate::graph::node_ids(nodes@).len() == nodes@.len());
    let mut u: usize = 0;
    while u < nodes.len()
        invariant
            n == graph.num_nodes(),
            n2 == n * 2,
            n * 2 <= usize::MAX,
            crate::graph::node_ids(nodes@) == Seq::new(n as nat, |i: int| i as nat),
            u <= nodes@.len() == n,
            views(polynomials@) == edge_maps(n2, edge_list(*graph, u as nat)),
            all_in_vars(polynomials@, n2),
            forall|a: int, k: int|
                0 <= a < n && 0 <= k < graph.nbrs(a).len() ==> #[trigger] graph.nbrs(a)[k] < n && graph.nbrs(a)[k] != a,
        decreases nodes@.len() - u,
    {
        let node = nodes[u];
        assert(crate::graph::node_ids(nodes@)[u as int] == node@);
        let ghost nb = graph.nbrs(u as int);
        let ghost before = edge_list(*graph, u as nat);
        assert(edge_list(*graph, (u + 1) as nat) == before + forward_nbrs(u as nat, nb));
        match graph.neighbors(node) {
            None => {
                assert(forward_nbrs(u as nat, nb) =~= Seq::<(nat, nat)>::empty());
                assert(before + forward_nbrs(u as nat, nb) =~= before);
            },
            Some(list) => {
                let mut k: usize = 0;
                while k < list.len()
                    invariant
                        n == graph.num_nodes(),
                        n2 == n * 2,
                        n * 2 <= usize::MAX,
                        u < n,
                        node@ == u,
                        crate::graph::node_ids(list@) == nb,
                        nb == graph.nbrs(u as int),
                        k <= list@.len(),
                        views(polynomials@) == edge_maps(n2, before + forward_nbrs(u as nat, nb.subrange(0, k as int))),
                        all_in_vars(polynomials@, n2),
                        forall|a: int, t: int|
                            0 <= a < n && 0 <= t < graph.nbrs(a).len() ==> #[trigger] graph.nbrs(a)[t] < n && graph.nbrs(a)[t]
                                != a,
                    decreases list@.len() - k,
                {
                    let neighbor = list[k];
                    assert(nb[k as int] == neighbor@);
                    assert(nb[k as int] < n && nb[k as int] != u);
                    assert(nb.subrange(0, k + 1).drop_last() =~= nb.subrange(0, k as int));
                    assert(nb.subrange(0, k + 1).last() == nb[k as int]);
                    let v = neighbor.get_id();
                    if u > v {
                        k = k + 1;
                        continue;
                    }
                    let p = edge_polynomial(n, u, v);
                    let ghost prev = polynomials@;
                    polynomials.push(p);
                    proof {
                        let s0 = before + forward_nbrs(u as nat, nb.subrange(0, k as int));
                        let s1 = before + forward_nbrs(u as nat, nb.subrange(0, k + 1));
                        assert(s1 =~= s0.push((u as nat, v as nat)));
                        assert(views(polynomials@) =~= views(prev).push(p@));
                        assert(edge_maps(n2, s1) =~= edge_maps(n2, s0).push(edge_poly(n2, u as int, v as int)));
                        assert forall|t: int| 0 <= t < polynomials@.len() implies in_vars(#[trigger] polynomials@[t]@, n2) by {
                            if t < prev.len() {
                                assert(polynomials@[t] == prev[t]);
                            }
                        }
                    }
                    k = k + 1;
                }
                assert(nb.subrange(0, list@.len() as int) =~= nb);
            },
        }
        u = u + 1;
    }
    if n > 0 {
        let px = shifted_variable(n, 0, 0);
        let py = shifted_variable(n, 1, 0);
        let ghost prev = polynomials@;
        polynomials.push(px);
        polynomials.push(py);
        proof {
            assert(views(polynomials@) =~= views(prev).push(px@).push(py@));
        }
        let first = nodes[0];
        assert(crate::graph::node_ids(nodes@)[0] == first@);
        match graph.neighbors(first) {
            Some(list) => {
                let ghost nb = graph.nbrs(0);
                let mut best: usize = list[0].get_id();
                assert(crate::graph::node_ids(list@)[0] == list@[0]@);
                let mut k: usize = 1;
                while k < list.len()
                    invariant
                        crate::graph::node_ids(list@) == nb,
                        nb.len() > 0,
                        1 <= k <= nb.len(),
                        best == seq_min(nb.subrange(0, k as int)),
                    decreases list@.len() - k,
                {
                    assert(nb[k as int] == list@[k as int]@);
                    assert(nb.subrange(0, k + 1).drop_last() =~= nb.subrange(0, k as int));
                    assert(nb.subrange(0, k + 1).last() == nb[k as int]);
                    let id = list[k].get_id();
                    if id < best {
                        best = id;
                    }
                    k = k + 1;
                }
                assert(nb.subrange(0, list@.len() as int) =~= nb);
                proof {
                    lemma_seq_min_in(nb);
                }
                let pxm = shifted_variable(n, best * 2, 0);
                let pym = shifted_variable(n, best * 2 + 1, -1);
                let ghost prev = polynomials@;
                polynomials.push(pxm);
                polynomials.push(pym);
                proof {
                    assert(views(polynomials@) =~= views(prev).push(pxm@).push(pym@));
                }
            },
            None => {},
        }
    }
    proof {
        assert(all_in_vars(polynomials@, n2)) by {
            assert forall|t: int| 0 <= t < polynomials@.len() implies in_vars(#[trigger] polynomials@[t]@, n2) by {
                assert(views(polynomials@)[t] == polynomials@[t]@);
            }
        }
    }
    polynomials
}

proof fn lemma_seq_min_in(s: Seq<nat>)
    requires
        s.len() > 0,
    ensures
        s.contains(seq_min(s)),
        forall|i: int| 0 <= i < s.len() ==> seq_min(s) <= #[trigger] s[i],
    decreases s.len(),
{
    if s.len() > 1 {
        let t = s.drop_last();
        lemma_seq_min_in(t);
        let k = choose|k: int| 0 <= k < t.len() && t[k] == seq_min(t);
        assert(s[k] == t[k]);
        assert(s[s.len() - 1] == s.last());
        assert forall|i: int| 0 <= i < s.len() implies seq_min(s) <= #[trigger] s[i] by {
            if i < s.len() - 1 {
                assert(s[i] == t[i]);
            }
        }
    } else {
        assert(s[0] == seq_min(s));
    }
}

/// The equations that place the nodes of `graph` in the plane with unit-length
/// edges (those of `constraint_maps`), replaced by a Gröbner basis of the
/// ideal they generate (`groebner_basis`), which meets Buchberger's criterion.
/// `None` when the basis computation gives up, which it does not when the
/// equations, as listed, meet the criterion already.
pub fn graph_to_polynomials(graph: &Graph) -> (r: Option<Vec<Polynomial>>)
    requires
        graph.num_nodes() * 2 <= usize::MAX,
    ensures
        r matches Some(b) ==> all_in_vars(b@, 2 * graph.num_nodes()) && (views(b@) == constraint_maps(*graph) || (
        inter_reduced(views(b@)) && forall|i: int|
            0 <= i < b@.len() ==> #[trigger] b@[i]@ != Map::<Seq<u32>, Q>::empty())),
        r matches Some(b) ==> buchberger_closed(b@),
        exists|ps: Seq<Polynomial>|
            #![trigger buchberger_closed(ps)]
            views(ps) == constraint_maps(*graph) && (buchberger_closed(ps) ==> (r matches Some(b) && same_polys(
                b@,
                ps,
            ))),
{
    let polynomials = isometry_constraints(graph);
    let r = groebner_basis(polynomials.as_slice());
    assert(views(polynomials@) == constraint_maps(*graph));
    assert(buchberger_closed(polynomials@) ==> (r matches Some(b) && same_polys(b@, polynomials@)));
    r
}

} // verus!
