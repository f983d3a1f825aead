//! Undirected simple graphs on the nodes `0..n`, their connected components,
//! and the pruning of nodes of degree one.
use crate::number::{nat_text, usize_text};
use vstd::prelude::*;
use vstd::string::StringExecFns;

verus! {

/// The identifier of a node: its index.
#[derive(Clone, Copy, Debug, PartialEq, Eq, Structural, Hash, PartialOrd, Ord)]
pub struct NodeId(usize);

impl View for NodeId {
    type V = nat;

    closed spec fn view(&self) -> nat {
        self.0 as nat
    }
}

impl NodeId {
    /// The index of the node.
    pub fn get_id(&self) -> (r: usize)
        ensures
            r == self@,
    {
        self.0
    }
}

/// Two node identifiers are equal exactly when their indices are.
pub proof fn lemma_node_id_eq(a: NodeId, b: NodeId)
    ensures
        (a == b) == (a@ == b@),
{
}

/// Why a graph could not be built.
#[derive(Clone, Copy, Debug, PartialEq, Eq, Structural)]
pub enum GraphError {
    /// An edge names a node that the graph does not have.
    NodeOutOfRange { u: usize, v: usize, n: usize },
    /// An edge joins a node to itself.
    SelfLoop,
}

/// The indices of a list of nodes.
pub open spec fn node_ids(s: Seq<NodeId>) -> Seq<nat> {
    s.map_values(|x: NodeId| x@)
}

/// The neighbours of `u` in the adjacency lists `adj`.
pub open spec fn nbrs_of(adj: Seq<Vec<NodeId>>, u: int) -> Seq<nat> {
    if 0 <= u < adj.len() {
        node_ids(adj[u]@)
    } else {
        Seq::empty()
    }
}

/// `adj` describes `n` nodes whose lists name existing nodes other than the
/// owner, without repetition, symmetrically.
pub open spec fn adj_wf(n: nat, adj: Seq<Vec<NodeId>>) -> bool {
    &&& adj.len() == n
    &&& forall|u: int, k: int|
        0 <= u < n && 0 <= k < nbrs_of(adj, u).len() ==> #[trigger] nbrs_of(adj, u)[k] < n && nbrs_of(adj, u)[k] != u
    &&& forall|u: int| 0 <= u < n ==> (#[trigger] nbrs_of(adj, u)).no_duplicates()
    &&& forall|u: int, v: nat|
        0 <= u < n && #[trigger] nbrs_of(adj, u).contains(v) ==> v < n && nbrs_of(adj, v as int).contains(u as nat)
}

/// An undirected graph without self-loops or multiple edges.
pub struct Graph {
    node_num: usize,
    adjacency: Vec<Vec<NodeId>>,
}

impl Graph {
    /// The number of nodes.
    pub closed spec fn num_nodes(&self) -> nat {
        self.node_num as nat
    }

    /// The neighbours of `u`, in the order in which their edges were added.
    pub closed spec fn nbrs(&self, u: int) -> Seq<nat> {
        nbrs_of(self.adjacency@, u)
    }

    /// `u` and `v` are joined by an edge.
    pub open spec fn adjacent(&self, u: int, v: int) -> bool {
        0 <= u < self.num_nodes() && 0 <= v && self.nbrs(u).contains(v as nat)
    }

    /// The adjacency lists are consistent.
    #[verifier::type_invariant]
    pub closed spec fn wf(self) -> bool {
        adj_wf(self.node_num as nat, self.adjacency@)
    }

    /// Facts that follow from the invariant.
    pub proof fn lemma_wf(&self)
        requires
            self.wf(),
        ensures
            forall|u: int, v: int| #[trigger] self.adjacent(u, v) ==> self.adjacent(v, u),
            forall|u: int, v: int| #[trigger] self.adjacent(u, v) ==> 0 <= v < self.num_nodes() && u != v,
            forall|u: int| 0 <= u < self.num_nodes() ==> (#[trigger] self.nbrs(u)).no_duplicates(),
            forall|u: int, k: int|
                0 <= u < self.num_nodes() && 0 <= k < self.nbrs(u).len() ==> #[trigger] self.nbrs(u)[k] < self.num_nodes()
                    && self.nbrs(u)[k] != u,
            forall|u: int| !(0 <= u < self.num_nodes()) ==> #[trigger] self.nbrs(u).len() == 0,
    {
        assert forall|u: int, v: int| #[trigger] self.adjacent(u, v) implies 0 <= v < self.num_nodes() && u != v by {
            let k = choose|k: int| 0 <= k < self.nbrs(u).len() && self.nbrs(u)[k] == v as nat;
            assert(nbrs_of(self.adjacency@, u)[k] == v);
        }
    }

    /// The graph without nodes.
    fn new() -> (r: Graph)
        ensures
            r.num_nodes() == 0,
            forall|u: int| #[trigger] r.nbrs(u) == Seq::<nat>::empty(),
    {
        let r = Graph { node_num: 0, adjacency: Vec::new() };
        assert forall|u: int| #[trigger] r.nbrs(u) == Seq::<nat>::empty() by {}
        r
    }

    /// Adds a node without edges and returns it.
    fn new_node(&mut self) -> (r: NodeId)
        requires
            old(self).num_nodes() < usize::MAX,
        ensures
            r@ == old(self).num_nodes(),
            final(self).num_nodes() == old(self).num_nodes() + 1,
            forall|u: int| #[trigger] final(self).nbrs(u) == old(self).nbrs(u),
    {
        proof {
            use_type_invariant(&*self);
        }
        let mut g = Graph::new();
        std::mem::swap(self, &mut g);
        let Graph { node_num, mut adjacency } = g;
        let ghost old_adj = adjacency@;
        adjacency.push(Vec::new());
        let r = NodeId(node_num);
        proof {
            let n = (node_num + 1) as nat;
            assert forall|u: int| #[trigger] nbrs_of(adjacency@, u) == nbrs_of(old_adj, u) by {
                if u == node_num {
                    assert(nbrs_of(adjacency@, u) =~= Seq::<nat>::empty());
                } else if 0 <= u < node_num {
                    assert(adjacency@[u] == old_adj[u]);
                }
            }
            assert(adj_wf(n, adjacency@));
        }
        *self = Graph { node_num: node_num + 1, adjacency };
        r
    }

    /// Joins `u` and `v`; a self-loop is refused and leaves the graph unchanged.
    fn add_edge(&mut self, u: NodeId, v: NodeId) -> (r: Result<(), GraphError>)
        requires
            u@ < old(self).num_nodes(),
            v@ < old(self).num_nodes(),
        ensures
            u == v ==> r == Err::<(), GraphError>(GraphError::SelfLoop) && *final(self) == *old(self),
            u != v ==> r is Ok,
            final(self).num_nodes() == old(self).num_nodes(),
            u != v ==> forall|a: int, b: int|
                #[trigger] final(self).adjacent(a, b) <==> old(self).adjacent(a, b) || (a == u@ && b == v@) || (a == v@
                    && b == u@),
    {
        if u.0 == v.0 {
            return Err(GraphError::SelfLoop);
        }
        proof {
            use_type_invariant(&*self);
        }
        let mut g = Graph::new();
        std::mem::swap(self, &mut g);
        let Graph { node_num, mut adjacency } = g;
        let ghost a0 = adjacency@;
        let ghost n = node_num as nat;
        assert(nbrs_of(a0, u@ as int).no_duplicates());
        assert(nbrs_of(a0, v@ as int).no_duplicates());
        Self::insert_nbr(&mut adjacency, u, v);
        let ghost a1 = adjacency@;
        assert(a1[v@ as int] == a0[v@ as int]);
        Self::insert_nbr(&mut adjacency, v, u);
        proof {
            assert forall|a: int| #[trigger] nbrs_of(adjacency@, a) == if a == u@ {
                if nbrs_of(a0, a).contains(v@) { nbrs_of(a0, a) } else { nbrs_of(a0, a).push(v@) }
            } else if a == v@ {
                if nbrs_of(a0, a).contains(u@) { nbrs_of(a0, a) } else { nbrs_of(a0, a).push(u@) }
            } else {
                nbrs_of(a0, a)
            } by {
                if 0 <= a < n && a != u@ && a != v@ {
                    assert(adjacency@[a] == a0[a]);
                }
                if a == u@ {
                    assert(adjacency@[a] == a1[a]);
                }
                if a == v@ {
                    assert(a1[a] == a0[a]);
                }
            }
            assert forall|a: int, b: nat|
                0 <= a < n && #[trigger] nbrs_of(adjacency@, a).contains(b) <==> 0 <= a < n && nbrs_of(a0, a).contains(b)
                    || (a == u@ && b == v@) || (a == v@ && b == u@) by {
                if a == u@ && !nbrs_of(a0, a).contains(v@) {
                    assert(nbrs_of(adjacency@, a).last() == v@);
                }
                if a == v@ && !nbrs_of(a0, a).contains(u@) {
                    assert(nbrs_of(adjacency@, a).last() == u@);
                }
                if a == u@ && nbrs_of(adjacency@, a).contains(b) && !nbrs_of(a0, a).contains(b) {
                    let k = choose|k: int| 0 <= k < nbrs_of(adjacency@, a).len() && nbrs_of(adjacency@, a)[k] == b;
                    assert(k == nbrs_of(a0, a).len());
                }
                if a == v@ && nbrs_of(adjacency@, a).contains(b) && !nbrs_of(a0, a).contains(b) {
                    let k = choose|k: int| 0 <= k < nbrs_of(adjacency@, a).len() && nbrs_of(adjacency@, a)[k] == b;
                    assert(k == nbrs_of(a0, a).len());
                }
                if nbrs_of(a0, a).contains(b) {
                    let k = choose|k: int| 0 <= k < nbrs_of(a0, a).len() && nbrs_of(a0, a)[k] == b;
                    assert(nbrs_of(adjacency@, a)[k] == b);
                }
            }
            assert forall|a: int, k: int|
                0 <= a < n && 0 <= k < nbrs_of(adjacency@, a).len() implies #[trigger] nbrs_of(adjacency@, a)[k] < n
                    && nbrs_of(adjacency@, a)[k] != a by {
                if k < nbrs_of(a0, a).len() {
                    assert(nbrs_of(adjacency@, a)[k] == nbrs_of(a0, a)[k]);
                }
            }
            assert forall|a: int| 0 <= a < n implies (#[trigger] nbrs_of(adjacency@, a)).no_duplicates() by {
                if a == u@ {
                    assert(nbrs_of(adjacency@, a) == node_ids(adjacency@[u@ as int]@));
                }
            }
            assert forall|a: int, b: nat|
                0 <= a < n && #[trigger] nbrs_of(adjacency@, a).contains(b) implies b < n && nbrs_of(
                    adjacency@,
                    b as int,
                ).contains(a as nat) by {
                if nbrs_of(a0, a).contains(b) {
                    assert(nbrs_of(a0, b as int).contains(a as nat));
                    assert(nbrs_of(adjacency@, b as int).contains(a as nat));
                } else if a == u@ {
                    assert(nbrs_of(adjacency@, v@ as int).contains(u@));
                } else {
                    assert(nbrs_of(adjacency@, u@ as int).contains(v@));
                }
            }
            assert(adj_wf(n, adjacency@));
        }
        *self = Graph { node_num, adjacency };
        Ok(())
    }

    /// Appends `v` to the list of `u` unless it is there already.
    fn insert_nbr(adjacency: &mut Vec<Vec<NodeId>>, u: NodeId, v: NodeId)
        requires
            u@ < old(adjacency)@.len(),
            node_ids(old(adjacency)@[u@ as int]@).no_duplicates(),
        ensures
            final(adjacency)@.len() == old(adjacency)@.len(),
            forall|a: int| 0 <= a < old(adjacency)@.len() && a != u@ ==> #[trigger] final(adjacency)@[a] == old(adjacency)@[a],
            node_ids(final(adjacency)@[u@ as int]@) == if node_ids(old(adjacency)@[u@ as int]@).contains(v@) {
                node_ids(old(adjacency)@[u@ as int]@)
            } else {
                node_ids(old(adjacency)@[u@ as int]@).push(v@)
            },
            node_ids(final(adjacency)@[u@ as int]@).no_duplicates(),
    {
        let ghost ids = node_ids(adjacency@[u.0 as int]@);
        let ghost a0 = adjacency@;
        let n = adjacency[u.0].len();
        let mut i: usize = 0;
        while i < n
            invariant
                adjacency@ == a0,
                ids.no_duplicates(),
                u@ < adjacency@.len(),
                n == adjacency@[u@ as int]@.len(),
                ids == node_ids(adjacency@[u@ as int]@),
                i <= n,
                forall|j: int| 0 <= j < i ==> ids[j] != v@,
            decreases n - i,
        {
            if adjacency[u.0][i].0 == v.0 {
                assert(ids[i as int] == v@);
                return;
            }
            i = i + 1;
        }
        adjacency[u.0].push(v);
        proof {
            assert(node_ids(adjacency@[u@ as int]@) =~= ids.push(v@));
        }
    }
}

impl Graph {
    /// The neighbours of `node`; `None` when it has none (or is not a node).
    pub fn neighbors(&self, node: NodeId) -> (r: Option<&Vec<NodeId>>)
        ensures
            r is None <==> self.nbrs(node@ as int).len() == 0,
            r matches Some(l) ==> node_ids(l@) == self.nbrs(node@ as int),
    {
        if node.0 < self.adjacency.len() && self.adjacency[node.0].len() > 0 {
            Some(&self.adjacency[node.0])
        } else {
            None
        }
    }

    /// The nodes `0..n` in increasing order.
    pub fn iter_nodes(&self) -> (r: Vec<NodeId>)
        ensures
            node_ids(r@) == Seq::new(self.num_nodes(), |i: int| i as nat),
    {
        let mut r: Vec<NodeId> = Vec::new();
        let mut i: usize = 0;
        while i < self.node_num
            invariant
                i <= self.node_num,
                node_ids(r@) == Seq::new(i as nat, |j: int| j as nat),
            decreases self.node_num - i,
        {
            let ghost prev = r@;
            r.push(NodeId(i));
            proof {
                assert(node_ids(r@) =~= node_ids(prev).push(i as nat));
                assert(node_ids(r@) =~= Seq::new((i + 1) as nat, |j: int| j as nat));
            }
            i = i + 1;
        }
        r
    }

    /// The number of nodes.
    pub fn get_node_num(&self) -> (r: usize)
        ensures
            r == self.num_nodes(),
    {
        self.node_num
    }
}

/// Both ends of `e` are nodes of a graph with `n` nodes, and they differ.
pub open spec fn edge_ok(n: nat, e: (usize, usize)) -> bool {
    e.0 < n && e.1 < n && e.0 != e.1
}

/// The edge list `edges` joins `a` and `b`.
pub open spec fn lists_edge(edges: Seq<(usize, usize)>, a: int, b: int) -> bool {
    exists|k: int| 0 <= k < edges.len() && ((edges[k].0 == a && edges[k].1 == b) || (edges[k].0 == b && edges[k].1 == a))
}

/// The error reported for the edge `e` of a graph with `n` nodes.
pub open spec fn edge_error(n: usize, e: (usize, usize)) -> GraphError {
    if e.0 < n && e.1 < n {
        GraphError::SelfLoop
    } else {
        GraphError::NodeOutOfRange { u: e.0, v: e.1, n }
    }
}

/// The graph with nodes `0..n` and the given edges. The first edge that
/// names a missing node, or joins a node to itself, is reported instead.
pub fn generate_graph(n: usize, edges: &[(usize, usize)]) -> (r: Result<Graph, GraphError>)
    ensures
        r is Ok <==> forall|k: int| 0 <= k < edges@.len() ==> edge_ok(n as nat, #[trigger] edges@[k]),
        r matches Ok(g) ==> g.num_nodes() == n && forall|a: int, b: int|
            #[trigger] g.adjacent(a, b) <==> lists_edge(edges@, a, b),
        r matches Err(e) ==> exists|k: int|
            0 <= k < edges@.len() && !edge_ok(n as nat, edges@[k]) && e == edge_error(n, edges@[k]) && forall|j: int|
                0 <= j < k ==> edge_ok(n as nat, #[trigger] edges@[j]),
{
    let mut graph = Graph::new();
    let mut ids: Vec<NodeId> = Vec::new();
    let mut i: usize = 0;
    while i < n
        invariant
            i <= n,
            graph.num_nodes() == i,
            forall|u: int| #[trigger] graph.nbrs(u) == Seq::<nat>::empty(),
            ids@.len() == i,
            forall|j: int| 0 <= j < i ==> (#[trigger] ids@[j])@ == j,
        decreases n - i,
    {
        let id = graph.new_node();
        ids.push(id);
        i = i + 1;
    }
    let mut k: usize = 0;
    while k < edges.len()
        invariant
            k <= edges@.len(),
            graph.num_nodes() == n,
            ids@.len() == n,
            forall|j: int| 0 <= j < n ==> (#[trigger] ids@[j])@ == j,
            forall|j: int| 0 <= j < k ==> edge_ok(n as nat, #[trigger] edges@[j]),
            forall|a: int, b: int| #[trigger] graph.adjacent(a, b) <==> lists_edge(edges@.subrange(0, k as int), a, b),
        decreases edges@.len() - k,
    {
        let (u, v) = edges[k];
        if u >= n || v >= n {
            return Err(GraphError::NodeOutOfRange { u, v, n });
        }
        let ghost before = graph;
        match graph.add_edge(ids[u], ids[v]) {
            Ok(()) => {},
            Err(e) => {
                return Err(e);
            },
        }
        proof {
            let s0 = edges@.subrange(0, k as int);
            let s1 = edges@.subrange(0, k + 1);
            assert forall|a: int, b: int| #[trigger] graph.adjacent(a, b) <==> lists_edge(s1, a, b) by {
                if lists_edge(s0, a, b) {
                    let j = choose|j: int| 0 <= j < s0.len() && ((s0[j].0 == a && s0[j].1 == b) || (s0[j].0 == b && s0[j].1 == a));
                    assert(s1[j] == s0[j]);
                }
                if (a == u && b == v) || (a == v && b == u) {
                    assert(s1[k as int] == (u, v));
                }
                if lists_edge(s1, a, b) {
                    let j = choose|j: int| 0 <= j < s1.len() && ((s1[j].0 == a && s1[j].1 == b) || (s1[j].0 == b && s1[j].1 == a));
                    if j < k {
                        assert(s0[j] == s1[j]);
                    }
                }
            }
        }
        k = k + 1;
    }
    proof {
        assert(edges@.subrange(0, edges@.len() as int) =~= edges@);
    }
    Ok(graph)
}

/// `s` is strictly increasing.
pub open spec fn increasing(s: Seq<nat>) -> bool {
    forall|i: int, j: int| 0 <= i < j < s.len() ==> s[i] < s[j]
}

/// The subgraph of `g` induced by the nodes `part` (strictly increasing), with
/// `part[i]` renamed `i`: `i` and `j` are adjacent exactly when `part[i]` and
/// `part[j]` are.
pub open spec fn is_induced(g: Graph, part: Seq<nat>, h: Graph) -> bool {
    &&& h.num_nodes() == part.len()
    &&& forall|a: int, b: int|
        #[trigger] h.adjacent(a, b) <==> 0 <= a < part.len() && 0 <= b < part.len() && g.adjacent(
            part[a] as int,
            part[b] as int,
        )
}

/// The position of `w` in `part`, if it occurs.
fn index_of(part: &Vec<NodeId>, w: usize) -> (r: Option<usize>)
    ensures
        r matches Some(j) ==> j < part@.len() && node_ids(part@)[j as int] == w,
        r is None ==> !node_ids(part@).contains(w as nat),
{
    let mut j: usize = 0;
    while j < part.len()
        invariant
            j <= part@.len(),
            forall|t: int| 0 <= t < j ==> node_ids(part@)[t] != w,
        decreases part@.len() - j,
    {
        if part[j].0 == w {
            return Some(j);
        }
        j = j + 1;
    }
    None
}

/// The subgraph induced by the nodes `part`, renumbered in the order given.
fn induced_subgraph(g: &Graph, part: &Vec<NodeId>) -> (r: Graph)
    requires
        increasing(node_ids(part@)),
        forall|i: int| 0 <= i < part@.len() ==> #[trigger] node_ids(part@)[i] < g.num_nodes(),
    ensures
        is_induced(*g, node_ids(part@), r),
{
    proof {
        use_type_invariant(g);
        g.lemma_wf();
    }
    let ghost ps = node_ids(part@);
    let k = part.len();
    let mut sub = Graph::new();
    let mut i: usize = 0;
    while i < k
        invariant
            i <= k,
            k == part@.len(),
            sub.num_nodes() == i,
            forall|u: int| #[trigger] sub.nbrs(u) == Seq::<nat>::empty(),
        decreases k - i,
    {
        sub.new_node();
        i = i + 1;
    }
    let mut i: usize = 0;
    while i < k
        invariant
            i <= k,
            k == part@.len() == ps.len(),
            ps == node_ids(part@),
            increasing(ps),
            forall|t: int| 0 <= t < ps.len() ==> #[trigger] ps[t] < g.num_nodes(),
            g.wf(),
            sub.num_nodes() == k,
            forall|a: int, b: int|
                #[trigger] sub.adjacent(a, b) <==> (a < i || b < i) && 0 <= a < k && 0 <= b < k && g.adjacent(
                    ps[a] as int,
                    ps[b] as int,
                ),
        decreases k - i,
    {
        let u = part[i].0;
        assert(u == ps[i as int]);
        let nb = &g.adjacency[u];
        let ghost ns = node_ids(nb@);
        assert(ns == g.nbrs(u as int));
        let mut t: usize = 0;
        while t < nb.len()
            invariant
                i < k,
                u == ps[i as int],
                k == part@.len() == ps.len(),
                ps == node_ids(part@),
                increasing(ps),
                forall|x: int| 0 <= x < ps.len() ==> #[trigger] ps[x] < g.num_nodes(),
                g.wf(),
                ns == node_ids(nb@),
                ns == g.nbrs(u as int),
                t <= ns.len(),
                sub.num_nodes() == k,
                forall|a: int, b: int|
                    #[trigger] sub.adjacent(a, b) <==> ((a < i || b < i) && 0 <= a < k && 0 <= b < k && g.adjacent(
                        ps[a] as int,
                        ps[b] as int,
                    )) || (a == i && 0 <= b < k && ns.take(t as int).contains(ps[b])) || (b == i && 0 <= a < k
                        && ns.take(t as int).contains(ps[a])),
            decreases ns.len() - t,
        {
            let w = nb[t].0;
            assert(w == ns[t as int]);
            let ghost before = sub;
            match index_of(part, w) {
                Some(j) => {
                    proof {
                        g.lemma_wf();
                        assert(g.adjacent(u as int, w as int));
                    }
                    let _ = sub.add_edge(NodeId(i), NodeId(j));
                },
                None => {},
            }
            proof {
                assert(ns.take(t + 1) =~= ns.take(t as int).push(w as nat));
                assert forall|a: int, b: int|
                    #[trigger] sub.adjacent(a, b) <==> ((a < i || b < i) && 0 <= a < k && 0 <= b < k && g.adjacent(
                        ps[a] as int,
                        ps[b] as int,
                    )) || (a == i && 0 <= b < k && ns.take(t + 1).contains(ps[b])) || (b == i && 0 <= a < k
                        && ns.take(t + 1).contains(ps[a])) by {
                    if 0 <= b < k && ps[b] == w {
                        assert(ns.take(t + 1)[t as int] == ps[b]);
                    }
                    if 0 <= a < k && ps[a] == w {
                        assert(ns.take(t + 1)[t as int] == ps[a]);
                    }
                    if a == i && 0 <= b < k && ns.take(t + 1).contains(ps[b]) && !ns.take(t as int).contains(ps[b]) {
                        assert(ps[b] == w);
                    }
                    if b == i && 0 <= a < k && ns.take(t + 1).contains(ps[a]) && !ns.take(t as int).contains(ps[a]) {
                        assert(ps[a] == w);
                    }
                }
            }
            t = t + 1;
        }
        proof {
            assert(ns.take(ns.len() as int) =~= ns);
            assert forall|a: int, b: int|
                #[trigger] sub.adjacent(a, b) <==> (a < i + 1 || b < i + 1) && 0 <= a < k && 0 <= b < k && g.adjacent(
                    ps[a] as int,
                    ps[b] as int,
                ) by {
                if b == i && 0 <= a < k && g.adjacent(ps[a] as int, ps[b] as int) {
                    assert(g.adjacent(ps[b] as int, ps[a] as int));
                }
                if b == i && 0 <= a < k && ns.contains(ps[a]) {
                    assert(g.adjacent(ps[b] as int, ps[a] as int));
                    assert(g.adjacent(ps[a] as int, ps[b] as int));
                }
            }
        }
        i = i + 1;
    }
    sub
}

/// `p` is a walk in `g`: consecutive entries are adjacent.
pub open spec fn is_walk(g: Graph, p: Seq<nat>) -> bool {
    p.len() >= 1 && forall|i: int| 0 <= i < p.len() - 1 ==> #[trigger] g.adjacent(p[i] as int, p[i + 1] as int)
}

/// Some walk in `g` leads from `a` to `b`.
pub open spec fn reachable(g: Graph, a: nat, b: nat) -> bool {
    exists|p: Seq<nat>| #[trigger] is_walk(g, p) && p[0] == a && p.last() == b
}

/// Every node reaches itself.
pub proof fn lemma_reachable_refl(g: Graph, a: nat)
    ensures
        reachable(g, a, a),
{
    assert(is_walk(g, seq![a]));
}

/// A walk to `u` extends along an edge from `u` to `v`.
pub proof fn lemma_reachable_step(g: Graph, a: nat, u: nat, v: nat)
    requires
        reachable(g, a, u),
        g.adjacent(u as int, v as int),
    ensures
        reachable(g, a, v),
{
    let p = choose|p: Seq<nat>| #[trigger] is_walk(g, p) && p[0] == a && p.last() == u;
    let q = p.push(v);
    assert forall|i: int| 0 <= i < q.len() - 1 implies #[trigger] g.adjacent(q[i] as int, q[i + 1] as int) by {
        if i < p.len() - 1 {
            assert(g.adjacent(p[i] as int, p[i + 1] as int));
        }
    }
    assert(is_walk(g, q));
}

/// `u` belongs to one of the `parts`.
pub open spec fn in_some_part(parts: Seq<Seq<nat>>, u: nat) -> bool {
    exists|c: int| 0 <= c < parts.len() && #[trigger] parts[c].contains(u)
}

/// `parts` lists the connected components of `g`: each is a non-empty,
/// strictly increasing list of nodes; together they cover every node once;
/// no edge leaves a component; every member is reachable from the first; and
/// components come in the order of their smallest nodes.
pub open spec fn is_component_split(g: Graph, parts: Seq<Seq<nat>>) -> bool {
    &&& forall|c: int| 0 <= c < parts.len() ==> #[trigger] parts[c].len() > 0 && increasing(parts[c])
    &&& forall|c: int, i: int| 0 <= c < parts.len() && 0 <= i < parts[c].len() ==> #[trigger] parts[c][i] < g.num_nodes()
    &&& forall|u: nat| u < g.num_nodes() ==> #[trigger] in_some_part(parts, u)
    &&& forall|c1: int, c2: int, x: nat|
        0 <= c1 < parts.len() && 0 <= c2 < parts.len() && #[trigger] parts[c1].contains(x) && #[trigger] parts[c2].contains(x)
            ==> c1 == c2
    &&& forall|c: int, u: nat, v: nat|
        0 <= c < parts.len() && #[trigger] parts[c].contains(u) && #[trigger] g.adjacent(u as int, v as int) ==> parts[c].contains(v)
    &&& forall|c: int, i: int| 0 <= c < parts.len() && 0 <= i < parts[c].len() ==> reachable(g, parts[c][0], #[trigger] parts[c][i])
    &&& forall|c1: int, c2: int| 0 <= c1 < c2 < parts.len() ==> #[trigger] parts[c1][0] < #[trigger] parts[c2][0]
}

/// The number of unlabelled (zero) entries.
pub open spec fn count_zero(l: Seq<usize>) -> nat
    decreases l.len(),
{
    if l.len() == 0 {
        0
    } else {
        count_zero(l.drop_last()) + if l.last() == 0 { 1nat } else { 0nat }
    }
}

proof fn lemma_count_zero_update(l: Seq<usize>, i: int, c: usize)
    requires
        0 <= i < l.len(),
        l[i] == 0,
        c != 0,
    ensures
        count_zero(l.update(i, c)) + 1 == count_zero(l),
    decreases l.len(),
{
    if i < l.len() - 1 {
        assert(l.update(i, c).drop_last() =~= l.drop_last().update(i, c));
        lemma_count_zero_update(l.drop_last(), i, c);
    } else {
        assert(l.update(i, c).drop_last() =~= l.drop_last());
    }
}

/// Labels with `c` every unlabelled node reachable from `s`, by a depth-first search.
fn label_component(g: &Graph, label: &mut Vec<usize>, s: usize, c: usize)
    requires
        g.wf(),
        old(label)@.len() == g.num_nodes(),
        s < g.num_nodes(),
        old(label)@[s as int] == 0,
        c >= 1,
        forall|u: int| 0 <= u < g.num_nodes() ==> #[trigger] old(label)@[u] < c,
        forall|u: int, v: int|
            0 <= u < g.num_nodes() && #[trigger] g.adjacent(u, v) && old(label)@[u] >= 1 ==> old(label)@[v] == old(label)@[u],
    ensures
        final(label)@.len() == g.num_nodes(),
        forall|u: int|
            0 <= u < g.num_nodes() ==> #[trigger] final(label)@[u] == old(label)@[u] || (old(label)@[u] == 0 && final(label)@[u]
                == c),
        final(label)@[s as int] == c,
        forall|u: int| 0 <= u < g.num_nodes() && #[trigger] final(label)@[u] == c ==> reachable(*g, s as nat, u as nat),
        forall|u: int, v: int|
            0 <= u < g.num_nodes() && #[trigger] g.adjacent(u, v) && final(label)@[u] >= 1 ==> final(label)@[v] == final(label)@[u],
{
    proof {
        g.lemma_wf();
        lemma_reachable_refl(*g, s as nat);
    }
    let ghost l0 = label@;
    let ghost n = g.num_nodes();
    let mut stack: Vec<usize> = Vec::new();
    stack.push(s);
    assert(stack@[0] == s);
    while stack.len() > 0
        invariant
            g.wf(),
            n == g.num_nodes(),
            label@.len() == n,
            l0.len() == n,
            c >= 1,
            forall|u: int| 0 <= u < n ==> #[trigger] l0[u] < c,
            forall|u: int, v: int| 0 <= u < n && #[trigger] g.adjacent(u, v) && l0[u] >= 1 ==> l0[v] == l0[u],
            forall|u: int| 0 <= u < n ==> #[trigger] label@[u] == l0[u] || (l0[u] == 0 && label@[u] == c),
            forall|x: int| 0 <= x < stack@.len() ==> (#[trigger] stack@[x]) < n,
            forall|x: int| 0 <= x < stack@.len() ==> reachable(*g, s as nat, (#[trigger] stack@[x]) as nat),
            forall|x: int| 0 <= x < stack@.len() ==> label@[(#[trigger] stack@[x]) as int] == 0 || label@[stack@[x] as int] == c,
            forall|u: int| 0 <= u < n && #[trigger] label@[u] == c ==> reachable(*g, s as nat, u as nat),
            forall|u: int, v: int|
                0 <= u < n && #[trigger] g.adjacent(u, v) && label@[u] == c ==> label@[v] == c || stack@.contains(v as usize),
            label@[s as int] == c || stack@.contains(s),
            s < n,
        decreases count_zero(label@), stack@.len(),
    {
        let ghost full = stack@;
        let cur = stack.pop().unwrap();
        let ghost st0 = stack@;
        proof {
            assert(full == st0.push(cur));
            assert(full[full.len() - 1] == cur);
            g.lemma_wf();
        }
        if label[cur] == 0 {
            proof {
                lemma_count_zero_update(label@, cur as int, c);
            }
            let ghost lb = label@;
            label.set(cur, c);
            let nb = &g.adjacency[cur];
            let ghost ns = node_ids(nb@);
            assert(ns == g.nbrs(cur as int));
            let mut t: usize = 0;
            while t < nb.len()
                invariant
                    g.wf(),
                    n == g.num_nodes(),
                    cur < n,
                    label@.len() == n,
                    label@[cur as int] == c,
                    l0[cur as int] == 0,
                    l0.len() == n,
                    forall|u: int, v: int| 0 <= u < n && #[trigger] g.adjacent(u, v) && l0[u] >= 1 ==> l0[v] == l0[u],
                    forall|u: int| 0 <= u < n ==> #[trigger] label@[u] == l0[u] || (l0[u] == 0 && label@[u] == c),
                    ns == node_ids(nb@),
                    ns == g.nbrs(cur as int),
                    t <= ns.len(),
                    stack@.len() == st0.len() + t,
                    forall|x: int| 0 <= x < st0.len() ==> stack@[x] == st0[x],
                    forall|x: int| 0 <= x < t ==> stack@[st0.len() + x] == ns[x],
                    forall|x: int| 0 <= x < stack@.len() ==> (#[trigger] stack@[x]) < n,
                    forall|x: int| 0 <= x < stack@.len() ==> reachable(*g, s as nat, (#[trigger] stack@[x]) as nat),
                    forall|x: int|
                        0 <= x < stack@.len() ==> label@[(#[trigger] stack@[x]) as int] == 0 || label@[stack@[x] as int] == c,
                    reachable(*g, s as nat, cur as nat),
                decreases ns.len() - t,
            {
                let w = nb[t].0;
                proof {
                    assert(ns[t as int] == w);
                    g.lemma_wf();
                    assert(g.adjacent(cur as int, w as int));
                    assert(g.adjacent(w as int, cur as int));
                    lemma_reachable_step(*g, s as nat, cur as nat, w as nat);
                }
                stack.push(w);
                t = t + 1;
            }
            proof {
                assert forall|u: int, v: int|
                    0 <= u < n && #[trigger] g.adjacent(u, v) && label@[u] == c implies label@[v] == c || stack@.contains(
                        v as usize,
                    ) by {
                    if u == cur {
                        let k = choose|k: int| 0 <= k < ns.len() && ns[k] == v as nat;
                        assert(stack@[st0.len() + k] == v);
                    } else if label@[v] != c && v != cur {
                        assert(lb[u] == c);
                        assert(full.contains(v as usize));
                        let k = choose|k: int| 0 <= k < full.len() && full[k] == v as usize;
                        assert(k < st0.len());
                        assert(stack@[k] == v as usize);
                    }
                }
                if label@[s as int] != c {
                    let k = choose|k: int| 0 <= k < full.len() && full[k] == s;
                    assert(k < st0.len());
                    assert(stack@[k] == s);
                }
                assert forall|x: int| 0 <= x < stack@.len() implies label@[(#[trigger] stack@[x]) as int] == 0
                    || label@[stack@[x] as int] == c by {
                }
            }
        } else {
            proof {
                assert(label@[cur as int] == c);
                assert forall|u: int, v: int|
                    0 <= u < n && #[trigger] g.adjacent(u, v) && label@[u] == c implies label@[v] == c || stack@.contains(
                        v as usize,
                    ) by {
                    if label@[v] != c {
                        assert(full.contains(v as usize));
                        let k = choose|k: int| 0 <= k < full.len() && full[k] == v as usize;
                        assert(k < st0.len());
                        assert(stack@[k] == v as usize);
                    }
                }
                if label@[s as int] != c {
                    let k = choose|k: int| 0 <= k < full.len() && full[k] == s;
                    assert(k < st0.len());
                    assert(stack@[k] == s);
                }
            }
        }
    }
    proof {
        assert forall|u: int, v: int|
            0 <= u < n && #[trigger] g.adjacent(u, v) && label@[u] >= 1 implies label@[v] == label@[u] by {
            if label@[u] == c {
                if label@[v] != c {
                    assert(stack@.contains(v as usize));
                }
            } else {
                assert(l0[u] >= 1);
                assert(l0[v] == l0[u]);
            }
        }
    }
}

/// The nodes labelled `c`, in increasing order.
fn collect_label(label: &Vec<usize>, c: usize) -> (r: Vec<NodeId>)
    ensures
        increasing(node_ids(r@)),
        forall|i: int|
            0 <= i < r@.len() ==> #[trigger] node_ids(r@)[i] < label@.len() && label@[node_ids(r@)[i] as int] == c,
        forall|x: nat| x < label@.len() && label@[x as int] == c ==> #[trigger] node_ids(r@).contains(x),
{
    let mut r: Vec<NodeId> = Vec::new();
    let mut u: usize = 0;
    while u < label.len()
        invariant
            u <= label@.len(),
            increasing(node_ids(r@)),
            forall|i: int| 0 <= i < r@.len() ==> #[trigger] node_ids(r@)[i] < u && label@[node_ids(r@)[i] as int] == c,
            forall|x: nat| x < u && label@[x as int] == c ==> #[trigger] node_ids(r@).contains(x),
        decreases label@.len() - u,
    {
        if label[u] == c {
            let ghost prev = node_ids(r@);
            r.push(NodeId(u));
            proof {
                assert(node_ids(r@) =~= prev.push(u as nat));
                assert forall|x: nat| x < u + 1 && label@[x as int] == c implies #[trigger] node_ids(r@).contains(x) by {
                    if x == u {
                        assert(node_ids(r@)[prev.len() as int] == x);
                    } else {
                        assert(x < u);
                        assert(prev.contains(x));
                        let k = choose|k: int| 0 <= k < prev.len() && prev[k] == x;
                        assert(node_ids(r@)[k] == x);
                    }
                }
            }
        }
        u = u + 1;
    }
    r
}

/// The node lists of a list of components.
pub open spec fn parts_ids(p: Seq<Vec<NodeId>>) -> Seq<Seq<nat>> {
    p.map_values(|v: Vec<NodeId>| node_ids(v@))
}

/// The connected components of `g` as increasing lists of nodes, ordered by
/// their smallest nodes.
fn component_parts(g: &Graph) -> (r: Vec<Vec<NodeId>>)
    ensures
        is_component_split(*g, parts_ids(r@)),
{
    proof {
        use_type_invariant(g);
        g.lemma_wf();
    }
    let n = g.node_num;
    let mut label: Vec<usize> = Vec::new();
    let mut i: usize = 0;
    while i < n
        invariant
            i <= n,
            label@.len() == i,
            forall|u: int| 0 <= u < i ==> #[trigger] label@[u] == 0,
        decreases n - i,
    {
        label.push(0);
        i = i + 1;
    }
    let mut parts: Vec<Vec<NodeId>> = Vec::new();
    let mut s: usize = 0;
    while s < n
        invariant
            g.wf(),
            n == g.num_nodes(),
            s <= n,
            label@.len() == n,
            parts@.len() <= s,
            forall|u: int| 0 <= u < n ==> #[trigger] label@[u] <= parts@.len(),
            forall|u: int| 0 <= u < s ==> #[trigger] label@[u] >= 1,
            forall|u: int, v: int| 0 <= u < n && #[trigger] g.adjacent(u, v) && label@[u] >= 1 ==> label@[v] == label@[u],
            forall|c: int, x: nat|
                0 <= c < parts@.len() ==> (#[trigger] parts_ids(parts@)[c].contains(x) <==> x < n && label@[x as int] == c
                    + 1),
            forall|c: int| 0 <= c < parts@.len() ==> #[trigger] parts_ids(parts@)[c].len() > 0 && increasing(parts_ids(parts@)[c]),
            forall|c: int, i: int|
                0 <= c < parts@.len() && 0 <= i < parts_ids(parts@)[c].len() ==> #[trigger] parts_ids(parts@)[c][i] < n,
            forall|c: int, i: int|
                0 <= c < parts@.len() && 0 <= i < parts_ids(parts@)[c].len() ==> reachable(
                    *g,
                    parts_ids(parts@)[c][0],
                    #[trigger] parts_ids(parts@)[c][i],
                ),
            forall|c1: int, c2: int|
                0 <= c1 < c2 < parts@.len() ==> #[trigger] parts_ids(parts@)[c1][0] < #[trigger] parts_ids(parts@)[c2][0],
            forall|c: int| 0 <= c < parts@.len() ==> #[trigger] parts_ids(parts@)[c][0] < s,
        decreases n - s,
    {
        if label[s] == 0 {
            let c = parts.len() + 1;
            let ghost l0 = label@;
            let ghost p0 = parts_ids(parts@);
            label_component(g, &mut label, s, c);
            let part = collect_label(&label, c);
            let ghost q = node_ids(part@);
            proof {
                assert(q.contains(s as nat));
                let k = choose|k: int| 0 <= k < q.len() && q[k] == s as nat;
                assert forall|i: int| 0 <= i < q.len() implies #[trigger] q[i] >= s by {
                    if q[i] < s {
                        assert(l0[q[i] as int] >= 1);
                    }
                }
                if k > 0 {
                    assert(q[0] < q[k]);
                }
                assert(q[0] == s);
            }
            parts.push(part);
            proof {
                let pn = parts_ids(parts@);
                assert(pn =~= p0.push(q));
                assert forall|c2: int, x: nat|
                    0 <= c2 < parts@.len() implies (#[trigger] parts_ids(parts@)[c2].contains(x) <==> x < n && label@[x as int]
                        == c2 + 1) by {
                    if c2 < p0.len() {
                        assert(pn[c2] == p0[c2]);
                        if x < n {
                            assert(label@[x as int] == l0[x as int] || (l0[x as int] == 0 && label@[x as int] == c));
                        }
                    } else {
                        assert(pn[c2] == q);
                        if q.contains(x) {
                            let k = choose|k: int| 0 <= k < q.len() && q[k] == x;
                            assert(label@[q[k] as int] == c);
                        }
                    }
                }
                assert forall|c2: int, i: int|
                    0 <= c2 < parts@.len() && 0 <= i < parts_ids(parts@)[c2].len() implies reachable(
                        *g,
                        parts_ids(parts@)[c2][0],
                        #[trigger] parts_ids(parts@)[c2][i],
                    ) by {
                    if c2 < p0.len() {
                        assert(pn[c2] == p0[c2]);
                    } else {
                        assert(pn[c2] == q);
                        assert(label@[q[i] as int] == c);
                    }
                }
                assert forall|c1: int, c2: int|
                    0 <= c1 < c2 < parts@.len() implies #[trigger] parts_ids(parts@)[c1][0] < #[trigger] parts_ids(
                        parts@,
                    )[c2][0] by {
                    assert(pn[c1] == p0[c1]);
                    if c2 < p0.len() {
                        assert(pn[c2] == p0[c2]);
                    }
                }
                assert forall|c2: int| 0 <= c2 < parts@.len() implies #[trigger] parts_ids(parts@)[c2][0] < s + 1 by {
                    if c2 < p0.len() {
                        assert(pn[c2] == p0[c2]);
                    }
                }
                assert forall|c2: int| 0 <= c2 < parts@.len() implies #[trigger] parts_ids(parts@)[c2].len() > 0 && increasing(
                    parts_ids(parts@)[c2],
                ) by {
                    if c2 < p0.len() {
                        assert(pn[c2] == p0[c2]);
                    }
                }
                assert forall|c2: int, i: int|
                    0 <= c2 < parts@.len() && 0 <= i < parts_ids(parts@)[c2].len() implies #[trigger] parts_ids(parts@)[c2][i]
                        < n by {
                    if c2 < p0.len() {
                        assert(pn[c2] == p0[c2]);
                    }
                }
                assert forall|u: int| 0 <= u < n implies #[trigger] label@[u] <= parts@.len() by {
                    assert(label@[u] == l0[u] || (l0[u] == 0 && label@[u] == c));
                }
            }
        }
        s = s + 1;
    }
    proof {
        let p = parts_ids(parts@);
        assert forall|u: nat| u < g.num_nodes() implies #[trigger] in_some_part(p, u) by {
            let c = label@[u as int] - 1;
            assert(p[c].contains(u));
        }
        assert forall|c1: int, c2: int, x: nat|
            0 <= c1 < p.len() && 0 <= c2 < p.len() && #[trigger] p[c1].contains(x) && #[trigger] p[c2].contains(x) implies c1
                == c2 by {
        }
        assert forall|c: int, u: nat, v: nat|
            0 <= c < p.len() && #[trigger] p[c].contains(u) && #[trigger] g.adjacent(u as int, v as int) implies p[c].contains(
                v,
            ) by {
            g.lemma_wf();
        }
    }
    parts
}

/// The connected components of `graph`, each renumbered in increasing order
/// of its original nodes, ordered by their smallest nodes.
pub fn connected_components(graph: &Graph) -> (r: Result<Vec<Graph>, GraphError>)
    ensures
        r matches Ok(cs) && exists|parts: Seq<Seq<nat>>|
            is_component_split(*graph, parts) && parts.len() == cs@.len() && forall|c: int|
                0 <= c < parts.len() ==> is_induced(*graph, parts[c], #[trigger] cs@[c]),
{
    let parts = component_parts(graph);
    let ghost ps = parts_ids(parts@);
    let mut components: Vec<Graph> = Vec::new();
    let mut c: usize = 0;
    while c < parts.len()
        invariant
            ps == parts_ids(parts@),
            is_component_split(*graph, ps),
            c <= parts@.len(),
            components@.len() == c,
            forall|d: int| 0 <= d < c ==> is_induced(*graph, ps[d], #[trigger] components@[d]),
        decreases parts@.len() - c,
    {
        proof {
            assert(ps[c as int] == node_ids(parts@[c as int]@));
            assert forall|i: int| 0 <= i < parts@[c as int]@.len() implies #[trigger] node_ids(parts@[c as int]@)[i]
                < graph.num_nodes() by {
                assert(ps[c as int][i] < graph.num_nodes());
            }
        }
        let h = induced_subgraph(graph, &parts[c]);
        components.push(h);
        c = c + 1;
    }
    Ok(components)
}

/// The nodes among `0..m` whose number of neighbours is not one, in
/// increasing order.
pub open spec fn branching_nodes(g: Graph, m: nat) -> Seq<nat>
    decreases m,
{
    if m == 0 {
        Seq::empty()
    } else {
        let rest = branching_nodes(g, (m - 1) as nat);
        if g.nbrs(m - 1).len() != 1 {
            rest.push((m - 1) as nat)
        } else {
            rest
        }
    }
}

/// The subgraph induced by the nodes whose number of neighbours is not one:
/// the nodes of degree one are removed, isolated nodes stay.
pub fn remove_degree_one_nodes(graph: &Graph) -> (r: Result<Graph, GraphError>)
    ensures
        r matches Ok(h) && is_induced(*graph, branching_nodes(*graph, graph.num_nodes()), h),
{
    let n = graph.get_node_num();
    let mut keep: Vec<NodeId> = Vec::new();
    let mut u: usize = 0;
    while u < n
        invariant
            n == graph.num_nodes(),
            u <= n,
            node_ids(keep@) == branching_nodes(*graph, u as nat),
            increasing(node_ids(keep@)),
            forall|i: int| 0 <= i < keep@.len() ==> #[trigger] node_ids(keep@)[i] < u,
        decreases n - u,
    {
        let keep_it = match graph.neighbors(NodeId(u)) {
            Some(l) => l.len() != 1,
            None => true,
        };
        if keep_it {
            let ghost prev = node_ids(keep@);
            keep.push(NodeId(u));
            proof {
                assert(node_ids(keep@) =~= prev.push(u as nat));
            }
        }
        u = u + 1;
    }
    Ok(induced_subgraph(graph, &keep))
}

/// `h` arises from `g` by keeping the increasing node list `p`: it is the
/// induced subgraph, and no node of `h` has exactly one neighbour.
pub open spec fn pruned_by(g: Graph, p: Seq<nat>, h: Graph) -> bool {
    &&& increasing(p)
    &&& forall|i: int| 0 <= i < p.len() ==> #[trigger] p[i] < g.num_nodes()
    &&& is_induced(g, p, h)
    &&& forall|u: int| 0 <= u < h.num_nodes() ==> #[trigger] h.nbrs(u).len() != 1
}

/// The entries of `p` at the positions `q`.
pub open spec fn compose(p: Seq<nat>, q: Seq<nat>) -> Seq<nat> {
    q.map_values(|i: nat| p[i as int])
}

/// Some node list prunes `g` to `h`.
pub open spec fn prunes_to(g: Graph, h: Graph) -> bool {
    exists|p: Seq<nat>| pruned_by(g, p, h)
}

/// An induced subgraph of an induced subgraph is induced by the composed node list.
proof fn lemma_induced_compose(g: Graph, p: Seq<nat>, h: Graph, q: Seq<nat>, k: Graph)
    requires
        increasing(p),
        forall|i: int| 0 <= i < p.len() ==> #[trigger] p[i] < g.num_nodes(),
        is_induced(g, p, h),
        increasing(q),
        forall|i: int| 0 <= i < q.len() ==> #[trigger] q[i] < h.num_nodes(),
        is_induced(h, q, k),
    ensures
        increasing(compose(p, q)),
        forall|i: int| 0 <= i < q.len() ==> #[trigger] compose(p, q)[i] < g.num_nodes(),
        is_induced(g, compose(p, q), k),
{
    let pq = compose(p, q);
    assert forall|i: int, j: int| 0 <= i < j < pq.len() implies pq[i] < pq[j] by {
        assert(q[i] < q[j]);
    }
    assert forall|a: int, b: int|
        #[trigger] k.adjacent(a, b) <==> 0 <= a < pq.len() && 0 <= b < pq.len() && g.adjacent(pq[a] as int, pq[b] as int) by {
        if 0 <= a < pq.len() && 0 <= b < pq.len() {
            assert(h.adjacent(q[a] as int, q[b] as int) <==> g.adjacent(p[q[a] as int] as int, p[q[b] as int] as int));
        }
    }
}

/// A graph that keeps all its nodes when pruned had no node of degree one,
/// and the pruned graph has none either.
proof fn lemma_all_branching(g: Graph, h: Graph)
    requires
        g.wf(),
        h.wf(),
        is_induced(g, branching_nodes(g, g.num_nodes()), h),
        h.num_nodes() == g.num_nodes(),
    ensures
        forall|u: int| 0 <= u < h.num_nodes() ==> #[trigger] h.nbrs(u).len() != 1,
        is_induced(g, Seq::new(g.num_nodes(), |i: int| i as nat), h),
{
    lemma_branching_nodes(g, g.num_nodes());
    let b = branching_nodes(g, g.num_nodes());
    lemma_full_increasing(b, g.num_nodes());
    g.lemma_wf();
    h.lemma_wf();
    assert forall|u: int| 0 <= u < h.num_nodes() implies #[trigger] h.nbrs(u).len() != 1 by {
        assert(b[u] == u);
        assert(g.nbrs(u).len() != 1);
        if g.nbrs(u).len() == 0 {
            if h.nbrs(u).len() == 1 {
                let x = h.nbrs(u)[0];
                assert(h.adjacent(u, x as int));
                assert(b[x as int] == x);
                assert(g.adjacent(u, x as int));
                let k = choose|k: int| 0 <= k < g.nbrs(u).len() && g.nbrs(u)[k] == x;
            }
        } else {
            let x = g.nbrs(u)[0];
            let y = g.nbrs(u)[1];
            assert(x != y);
            assert(g.adjacent(u, x as int));
            assert(g.adjacent(u, y as int));
            assert(b[x as int] == x);
            assert(b[y as int] == y);
            assert(h.adjacent(u, x as int));
            assert(h.adjacent(u, y as int));
            if h.nbrs(u).len() <= 1 {
                let i = choose|i: int| 0 <= i < h.nbrs(u).len() && h.nbrs(u)[i] == x;
                let j = choose|j: int| 0 <= j < h.nbrs(u).len() && h.nbrs(u)[j] == y;
            }
        }
    }
    assert(b =~= Seq::new(g.num_nodes(), |i: int| i as nat));
}

/// Facts about `branching_nodes`.
proof fn lemma_branching_nodes(g: Graph, m: nat)
    ensures
        increasing(branching_nodes(g, m)),
        branching_nodes(g, m).len() <= m,
        forall|i: int| 0 <= i < branching_nodes(g, m).len() ==> #[trigger] branching_nodes(g, m)[i] < m && g.nbrs(
            branching_nodes(g, m)[i] as int,
        ).len() != 1,
        forall|u: nat| u < m && g.nbrs(u as int).len() != 1 ==> #[trigger] branching_nodes(g, m).contains(u),
    decreases m,
{
    if m > 0 {
        lemma_branching_nodes(g, (m - 1) as nat);
        let rest = branching_nodes(g, (m - 1) as nat);
        assert forall|u: nat| u < m && g.nbrs(u as int).len() != 1 implies #[trigger] branching_nodes(g, m).contains(u) by {
            if u < m - 1 {
                assert(rest.contains(u));
                let k = choose|k: int| 0 <= k < rest.len() && rest[k] == u;
                assert(branching_nodes(g, m)[k] == u);
            } else {
                assert(branching_nodes(g, m)[rest.len() as int] == u);
            }
        }
    }
}

/// An increasing list of `m` numbers below `m` is `0..m`.
proof fn lemma_full_increasing(b: Seq<nat>, m: nat)
    requires
        increasing(b),
        b.len() == m,
        forall|i: int| 0 <= i < b.len() ==> #[trigger] b[i] < m,
    ensures
        forall|i: int| 0 <= i < m ==> #[trigger] b[i] == i,
    decreases m,
{
    if m > 0 {
        assert forall|i: int| 0 <= i < m implies #[trigger] b[i] >= i by {
            lemma_increasing_ge(b, i);
        }
        assert forall|i: int| 0 <= i < m implies #[trigger] b[i] <= i by {
            if b[i] > i {
                lemma_increasing_ge(b, m - 1);
                let t = m - 1 - i;
                lemma_increasing_tail(b, i, m - 1);
            }
        }
    }
}

/// In an increasing list of naturals, entry `i` is at least `i`.
proof fn lemma_increasing_ge(b: Seq<nat>, i: int)
    requires
        increasing(b),
        0 <= i < b.len(),
    ensures
        b[i] >= i,
    decreases i,
{
    if i > 0 {
        lemma_increasing_ge(b, i - 1);
    }
}

/// In an increasing list, entry `j` exceeds entry `i` by at least `j - i`.
proof fn lemma_increasing_tail(b: Seq<nat>, i: int, j: int)
    requires
        increasing(b),
        0 <= i <= j < b.len(),
    ensures
        b[j] >= b[i] + (j - i),
    decreases j - i,
{
    if i < j {
        lemma_increasing_tail(b, i, j - 1);
    }
}

/// The positions `j` of the list `p` of nodes of `g` whose node is joined to
/// that at position `i`.
pub open spec fn inner_nbrs(g: Graph, p: Seq<nat>, i: int) -> Set<nat> {
    Set::new(|j: nat| j < p.len() && g.adjacent(p[i] as int, p[j as int] as int))
}

/// The positions among `0..m` of the list `p` whose node has a number of
/// neighbours within `p` other than one, in increasing order.
pub open spec fn kept_positions(g: Graph, p: Seq<nat>, m: nat) -> Seq<nat>
    decreases m,
{
    if m == 0 {
        Seq::empty()
    } else {
        let rest = kept_positions(g, p, (m - 1) as nat);
        if inner_nbrs(g, p, m - 1).len() != 1 {
            rest.push((m - 1) as nat)
        } else {
            rest
        }
    }
}

/// One round of pruning of the node list `p` of `g`: the nodes of `p` with
/// exactly one neighbour within `p` leave.
pub open spec fn prune_step(g: Graph, p: Seq<nat>) -> Seq<nat> {
    compose(p, kept_positions(g, p, p.len()))
}

/// The nodes of `g` left after `k` rounds of pruning.
pub open spec fn prune_iter(g: Graph, k: nat) -> Seq<nat>
    decreases k,
{
    if k == 0 {
        Seq::new(g.num_nodes(), |i: int| i as nat)
    } else {
        prune_step(g, prune_iter(g, (k - 1) as nat))
    }
}

/// `p` is what repeated pruning of `g` leaves: the node list after some
/// number of rounds, which a further round keeps as it is.
pub open spec fn prune_fixpoint(g: Graph, p: Seq<nat>) -> bool {
    exists|k: nat| #[trigger] prune_iter(g, k) == p && prune_step(g, p) == p
}

/// `h` is the subgraph of `g` induced by what repeated pruning leaves.
pub open spec fn fully_pruned(g: Graph, h: Graph) -> bool {
    exists|p: Seq<nat>| #[trigger] prune_fixpoint(g, p) && is_induced(g, p, h)
}

/// Once a round keeps the node list, every later round does too.
proof fn lemma_prune_stays(g: Graph, k: nat, m: nat)
    requires
        k <= m,
        prune_step(g, prune_iter(g, k)) == prune_iter(g, k),
    ensures
        prune_iter(g, m) == prune_iter(g, k),
    decreases m - k,
{
    if k < m {
        lemma_prune_stays(g, k, (m - 1) as nat);
    }
}

/// Repeated pruning leaves one node list only.
pub proof fn lemma_prune_fixpoint_unique(g: Graph, p1: Seq<nat>, p2: Seq<nat>)
    requires
        prune_fixpoint(g, p1),
        prune_fixpoint(g, p2),
    ensures
        p1 == p2,
{
    let k1 = choose|k: nat| #[trigger] prune_iter(g, k) == p1 && prune_step(g, p1) == p1;
    let k2 = choose|k: nat| #[trigger] prune_iter(g, k) == p2 && prune_step(g, p2) == p2;
    if k1 <= k2 {
        lemma_prune_stays(g, k1, k2);
    } else {
        lemma_prune_stays(g, k2, k1);
    }
}

/// In a graph induced by `p`, the number of neighbours of node `i` is the
/// number of positions of `p` joined to `p[i]`.
proof fn lemma_induced_degree(g: Graph, p: Seq<nat>, h: Graph, i: int)
    requires
        h.wf(),
        is_induced(g, p, h),
        0 <= i < p.len(),
    ensures
        h.nbrs(i).len() == inner_nbrs(g, p, i).len(),
{
    h.lemma_wf();
    let s = h.nbrs(i);
    assert(s.no_duplicates());
    s.unique_seq_to_set();
    assert forall|j: nat| s.to_set().contains(j) == inner_nbrs(g, p, i).contains(j) by {
        if s.contains(j) {
            assert(h.adjacent(i, j as int));
        }
        if inner_nbrs(g, p, i).contains(j) {
            assert(h.adjacent(i, j as int));
        }
    }
    assert(s.to_set() =~= inner_nbrs(g, p, i));
}

/// In a graph induced by `p`, the nodes kept by one removal are the kept
/// positions of `p`.
proof fn lemma_branching_is_kept(g: Graph, p: Seq<nat>, h: Graph, m: nat)
    requires
        h.wf(),
        is_induced(g, p, h),
        m <= p.len(),
    ensures
        branching_nodes(h, m) == kept_positions(g, p, m),
    decreases m,
{
    if m > 0 {
        lemma_branching_is_kept(g, p, h, (m - 1) as nat);
        lemma_induced_degree(g, p, h, m - 1);
    }
}

/// A well-formed graph is induced by all its nodes.
proof fn lemma_induced_by_all(g: Graph)
    requires
        g.wf(),
    ensures
        is_induced(g, Seq::new(g.num_nodes(), |i: int| i as nat), g),
{
    g.lemma_wf();
    let all = Seq::new(g.num_nodes(), |i: int| i as nat);
    assert forall|a: int, b: int|
        #[trigger] g.adjacent(a, b) <==> 0 <= a < all.len() && 0 <= b < all.len() && g.adjacent(
            all[a] as int,
            all[b] as int,
        ) by {
        if g.adjacent(a, b) {
            assert(0 <= b < g.num_nodes());
        }
    }
}

/// Removes the nodes with exactly one neighbour, round after round, until a
/// round removes none: the result is induced by what repeated pruning leaves.
pub fn remove_degree_one_nodes_iteratively(graph: &Graph) -> (r: Result<Graph, GraphError>)
    ensures
        r matches Ok(h) && prunes_to(*graph, h),
        r matches Ok(h) && fully_pruned(*graph, h),
{
    proof {
        use_type_invariant(graph);
        lemma_branching_nodes(*graph, graph.num_nodes());
    }
    let first = match remove_degree_one_nodes(graph) {
        Ok(h) => h,
        Err(e) => {
            return Err(e);
        },
    };
    let ghost mut p = branching_nodes(*graph, graph.num_nodes());
    let ghost mut k: nat = 1;
    proof {
        let all = Seq::new(graph.num_nodes(), |i: int| i as nat);
        lemma_induced_by_all(*graph);
        lemma_branching_is_kept(*graph, all, *graph, graph.num_nodes());
        assert(compose(all, p) =~= p);
        assert(prune_iter(*graph, 1) == prune_step(*graph, prune_iter(*graph, 0)));
        assert(prune_iter(*graph, 1) == p);
    }
    let mut current = first;
    if current.get_node_num() == graph.get_node_num() {
        proof {
            use_type_invariant(&current);
            lemma_all_branching(*graph, current);
            assert(pruned_by(*graph, p, current));
            let all = Seq::new(graph.num_nodes(), |i: int| i as nat);
            lemma_full_increasing(p, graph.num_nodes());
            assert(p =~= all);
            assert(prune_step(*graph, p) == p);
            assert(prune_fixpoint(*graph, p));
        }
        return Ok(current);
    }
    loop
        invariant
            increasing(p),
            forall|i: int| 0 <= i < p.len() ==> #[trigger] p[i] < graph.num_nodes(),
            is_induced(*graph, p, current),
            p == prune_iter(*graph, k),
        decreases current.num_nodes(),
    {
        proof {
            use_type_invariant(&current);
            lemma_branching_nodes(current, current.num_nodes());
        }
        let next = match remove_degree_one_nodes(&current) {
            Ok(h) => h,
            Err(e) => {
                return Err(e);
            },
        };
        let ghost q = branching_nodes(current, current.num_nodes());
        proof {
            lemma_induced_compose(*graph, p, current, q, next);
            lemma_branching_is_kept(*graph, p, current, current.num_nodes());
            assert(compose(p, q) == prune_step(*graph, p));
            assert(prune_iter(*graph, k + 1) == prune_step(*graph, prune_iter(*graph, k)));
        }
        if next.get_node_num() == current.get_node_num() {
            proof {
                use_type_invariant(&next);
                lemma_all_branching(current, next);
                assert(pruned_by(*graph, compose(p, q), next));
                lemma_full_increasing(q, current.num_nodes());
                assert(compose(p, q) =~= p);
                assert(prune_iter(*graph, k + 1) == p);
                assert(prune_step(*graph, p) == p);
                assert(prune_fixpoint(*graph, p));
            }
            return Ok(next);
        }
        proof {
            p = compose(p, q);
            k = k + 1;
        }
        current = next;
    }
}

/// `parts` are the components of `g`, `cs` the subgraphs they induce, and
/// `hs[c]` is `cs[c]` pruned round after round until no node has exactly one
/// neighbour.
pub open spec fn simplified_into(g: Graph, parts: Seq<Seq<nat>>, cs: Seq<Graph>, hs: Seq<Graph>) -> bool {
    &&& is_component_split(g, parts)
    &&& parts.len() == cs.len()
    &&& cs.len() == hs.len()
    &&& forall|c: int| 0 <= c < parts.len() ==> is_induced(g, parts[c], #[trigger] cs[c])
    &&& forall|c: int| 0 <= c < parts.len() ==> #[trigger] prunes_to(cs[c], hs[c])
    &&& forall|c: int| 0 <= c < parts.len() ==> #[trigger] fully_pruned(cs[c], hs[c])
}

/// Splits `graph` into connected components and prunes each until no node
/// has exactly one neighbour.
pub fn simplify_graph(graph: &Graph) -> (r: Result<Vec<Graph>, GraphError>)
    ensures
        r is Ok,
        r matches Ok(hs) ==> exists|parts: Seq<Seq<nat>>, cs: Seq<Graph>| #[trigger] simplified_into(*graph, parts, cs, hs@),
{
    let components = match connected_components(graph) {
        Ok(cs) => cs,
        Err(e) => {
            return Err(e);
        },
    };
    let mut result: Vec<Graph> = Vec::new();
    let mut c: usize = 0;
    while c < components.len()
        invariant
            c <= components@.len(),
            result@.len() == c,
            forall|d: int| 0 <= d < c ==> prunes_to(components@[d], #[trigger] result@[d]),
            forall|d: int| 0 <= d < c ==> fully_pruned(components@[d], #[trigger] result@[d]),
        decreases components@.len() - c,
    {
        match remove_degree_one_nodes_iteratively(&components[c]) {
            Ok(h) => {
                result.push(h);
            },
            Err(e) => {
                return Err(e);
            },
        }
        c = c + 1;
    }
    proof {
        let parts = choose|parts: Seq<Seq<nat>>|
            is_component_split(*graph, parts) && parts.len() == components@.len() && forall|c: int|
                0 <= c < parts.len() ==> is_induced(*graph, parts[c], #[trigger] components@[c]);
        assert(simplified_into(*graph, parts, components@, result@));
        assert(exists|parts: Seq<Seq<nat>>, cs: Seq<Graph>| #[trigger] simplified_into(*graph, parts, cs, result@));
    }
    let r: Result<Vec<Graph>, GraphError> = Ok(result);
    assert(r matches Ok(hs) ==> hs@ == result@);
    r
}

// ---------------------------------------------------------------------------
// Text
// ---------------------------------------------------------------------------
impl NodeId {
    /// The index of the node as text.
    pub fn to_text(&self) -> (r: String)
        ensures
            r@ == nat_text(self@),
    {
        usize_text(self.0)
    }
}

/// The first `k` node indices of `s`, each followed by a space.
pub open spec fn ids_text(s: Seq<nat>, k: nat) -> Seq<char>
    decreases k,
{
    if k == 0 || k > s.len() {
        Seq::empty()
    } else {
        ids_text(s, (k - 1) as nat) + nat_text(s[k - 1]) + seq![' ']
    }
}

/// The line of node `u` with the neighbours `nbrs`: `u: ` and the
/// neighbours, or `u: No neighbors`, then a line break.
pub open spec fn node_line(u: nat, nbrs: Seq<nat>) -> Seq<char> {
    if nbrs.len() == 0 {
        nat_text(u) + ": No neighbors"@ + seq!['\n']
    } else {
        nat_text(u) + ": "@ + ids_text(nbrs, nbrs.len()) + seq!['\n']
    }
}

/// The lines of the first `k` nodes.
pub open spec fn lines_text(lists: Seq<Seq<nat>>, k: nat) -> Seq<char>
    decreases k,
{
    if k == 0 || k > lists.len() {
        Seq::empty()
    } else {
        lines_text(lists, (k - 1) as nat) + node_line((k - 1) as nat, lists[k - 1])
    }
}

/// The text of a graph of `n` nodes whose neighbour lists are `lists`:
/// `Node count: n` and one line per node.
pub open spec fn graph_text(n: nat, lists: Seq<Seq<nat>>) -> Seq<char> {
    "Node count: "@ + nat_text(n) + seq!['\n'] + lines_text(lists, n)
}

/// `lists` holds, for each node of `g`, its neighbours in increasing order.
pub open spec fn sorted_adjacency(g: Graph, lists: Seq<Seq<nat>>) -> bool {
    &&& lists.len() == g.num_nodes()
    &&& forall|u: int|
        0 <= u < lists.len() ==> increasing(#[trigger] lists[u]) && lists[u].to_set() == g.nbrs(u).to_set()
}

/// The indices of a list of distinct nodes, in increasing order.
fn sorted_ids(list: &Vec<NodeId>) -> (r: Vec<usize>)
    requires
        node_ids(list@).no_duplicates(),
    ensures
        increasing(r@.map_values(|x: usize| x as nat)),
        r@.map_values(|x: usize| x as nat).to_set() == node_ids(list@).to_set(),
{
    let ghost ids = node_ids(list@);
    let mut out: Vec<usize> = Vec::new();
    let mut i: usize = 0;
    while i < list.len()
        invariant
            ids == node_ids(list@),
            ids.no_duplicates(),
            i <= list@.len(),
            increasing(out@.map_values(|x: usize| x as nat)),
            out@.map_values(|x: usize| x as nat).to_set() == ids.subrange(0, i as int).to_set(),
        decreases list@.len() - i,
    {
        let x = list[i].get_id();
        assert(ids[i as int] == x as nat);
        let mut p: usize = 0;
        while p < out.len() && out[p] < x
            invariant
                p <= out@.len(),
                forall|t: int| 0 <= t < p ==> out@[t] < x,
            decreases out@.len() - p,
        {
            p = p + 1;
        }
        let ghost before = out@;
        let ghost vb = before.map_values(|y: usize| y as nat);
        proof {
            if vb.contains(x as nat) {
                let t = choose|t: int| 0 <= t < vb.len() && vb[t] == x as nat;
                assert(vb.to_set().contains(x as nat));
                assert(ids.subrange(0, i as int).to_set().contains(x as nat));
                let k = choose|k: int| 0 <= k < i && ids.subrange(0, i as int)[k] == x as nat;
                assert(ids[k] == ids[i as int]);
            }
        }
        out.insert(p, x);
        proof {
            let va = out@.map_values(|y: usize| y as nat);
            assert(va =~= vb.insert(p as int, x as nat));
            assert forall|a: int, b: int| 0 <= a < b < va.len() implies va[a] < va[b] by {
                if b < p {
                } else if b == p {
                    assert(before[a] < x);
                } else if a == p {
                    if p < before.len() {
                        assert(!(before[p as int] < x));
                        assert(before[p as int] != x) by {
                            assert(vb[p as int] == before[p as int] as nat);
                        }
                        if b - 1 > p {
                            assert(vb[p as int] < vb[b - 1]);
                        }
                    }
                } else if a < p {
                    assert(vb[a] < vb[b - 1]) by {
                        if a < b - 1 {
                        } else {
                        }
                    }
                } else {
                    assert(vb[a - 1] < vb[b - 1]);
                }
            }
            assert(ids.subrange(0, i + 1) =~= ids.subrange(0, i as int).push(x as nat));
            assert(va.to_set() =~= vb.to_set().insert(x as nat)) by {
                assert forall|y: nat| va.to_set().contains(y) <==> vb.to_set().insert(x as nat).contains(y) by {
                    if va.contains(y) {
                        let t = choose|t: int| 0 <= t < va.len() && va[t] == y;
                        if t < p {
                            assert(vb[t] == y);
                        } else if t > p {
                            assert(vb[t - 1] == y);
                        }
                    }
                    if vb.contains(y) {
                        let t = choose|t: int| 0 <= t < vb.len() && vb[t] == y;
                        if t < p {
                            assert(va[t] == y);
                        } else {
                            assert(va[t + 1] == y);
                        }
                    }
                    if y == x as nat {
                        assert(va[p as int] == y);
                    }
                }
            }
            let s0 = ids.subrange(0, i as int);
            let s1 = ids.subrange(0, i + 1);
            assert(s1.to_set() =~= s0.to_set().insert(x as nat)) by {
                assert forall|y: nat| s1.to_set().contains(y) <==> s0.to_set().insert(x as nat).contains(y) by {
                    if s1.contains(y) {
                        let t = choose|t: int| 0 <= t < s1.len() && s1[t] == y;
                        if t < i {
                            assert(s0[t] == y);
                        }
                    }
                    if s0.contains(y) {
                        let t = choose|t: int| 0 <= t < s0.len() && s0[t] == y;
                        assert(s1[t] == y);
                    }
                    if y == x as nat {
                        assert(s1[i as int] == y);
                    }
                }
            }
        }
        i = i + 1;
    }
    assert(ids.subrange(0, list@.len() as int) =~= ids);
    out
}

impl Graph {
    /// The graph as text: `Node count: n`, then for each node its
    /// neighbours in increasing order (`graph_text`).
    pub fn to_text(&self) -> (r: String)
        ensures
            exists|lists: Seq<Seq<nat>>| #[trigger] sorted_adjacency(*self, lists) && r@ == graph_text(self.num_nodes(), lists),
    {
        proof {
            use_type_invariant(self);
            self.lemma_wf();
            reveal_strlit("Node count: ");
            reveal_strlit(": No neighbors");
            reveal_strlit(": ");
            reveal_strlit(" ");
            reveal_strlit("\n");
        }
        let n = self.node_num;
        let mut s = String::from_str("Node count: ");
        s.append(usize_text(n).as_str());
        s.append("\n");
        let ghost head = s@;
        let nodes = self.iter_nodes();
        assert(node_ids(nodes@).len() == nodes@.len());
        let ghost mut lists: Seq<Seq<nat>> = Seq::empty();
        let mut u: usize = 0;
        while u < n
            invariant
                n == self.num_nodes(),
                node_ids(nodes@) == Seq::new(n as nat, |i: int| i as nat),
                nodes@.len() == n,
                lists.len() == u,
                u <= n,
                forall|a: int| 0 <= a < n ==> (#[trigger] self.nbrs(a)).no_duplicates(),
                forall|a: int| 0 <= a < u ==> increasing(#[trigger] lists[a]) && lists[a].to_set() == self.nbrs(a).to_set(),
                s@ == head + lines_text(lists, u as nat),
            decreases n - u,
        {
            let node = nodes[u];
            assert(node_ids(nodes@)[u as int] == node@);
            let ghost before = s@;
            proof {
                reveal_strlit(": No neighbors");
                reveal_strlit(": ");
                reveal_strlit("\n");
            }
            let label = node.to_text();
            let ghost line: Seq<nat>;
            match self.neighbors(node) {
                Some(list) => {
                    let ids = sorted_ids(list);
                    s.append(label.as_str());
                    s.append(": ");
                    let ghost mid = s@;
                    let ghost v = ids@.map_values(|x: usize| x as nat);
                    let mut k: usize = 0;
                    while k < ids.len()
                        invariant
                            v == ids@.map_values(|x: usize| x as nat),
                            k <= ids@.len(),
                            s@ == mid + ids_text(v, k as nat),
                        decreases ids@.len() - k,
                    {
                        assert(v[k as int] == ids@[k as int] as nat);
                        let ghost b2 = s@;
                        proof {
                            reveal_strlit(" ");
                        }
                        s.append(usize_text(ids[k]).as_str());
                        s.append(" ");
                        assert(s@ =~= mid + ids_text(v, (k + 1) as nat));
                        k = k + 1;
                    }
                    s.append("\n");
                    proof {
                        line = v;
                        assert(v.len() > 0) by {
                            assert(self.nbrs(u as int).len() > 0);
                            assert(self.nbrs(u as int).to_set().contains(self.nbrs(u as int)[0]));
                        }
                        assert(s@ =~= before + node_line(u as nat, v));
                    }
                },
                None => {
                    s.append(label.as_str());
                    s.append(": No neighbors");
                    s.append("\n");
                    proof {
                        line = Seq::empty();
                        assert(self.nbrs(u as int).to_set() =~= Set::<nat>::empty());
                        assert(line.to_set() =~= Set::<nat>::empty());
                        assert(s@ =~= before + node_line(u as nat, line));
                    }
                },
            }
            proof {
                let old_lists = lists;
                lists = lists.push(line);
                assert(lines_text(lists, (u + 1) as nat) == lines_text(old_lists, u as nat) + node_line(u as nat, line)) by {
                    assert(lists.drop_last() =~= old_lists);
                    lemma_lines_text_prefix(lists, u as nat);
                }
                assert forall|a: int| 0 <= a < u + 1 implies increasing(#[trigger] lists[a]) && lists[a].to_set() == self.nbrs(a).to_set() by {
                    if a < u {
                        assert(lists[a] == old_lists[a]);
                    }
                }
            }
            u = u + 1;
        }
        proof {
            assert(sorted_adjacency(*self, lists));
        }
        s
    }
}

proof fn lemma_lines_text_prefix(lists: Seq<Seq<nat>>, k: nat)
    requires
        k < lists.len(),
    ensures
        lines_text(lists, k) == lines_text(lists.subrange(0, k as int), k),
    decreases k,
{
    if k > 0 {
        lemma_lines_text_prefix(lists, (k - 1) as nat);
        lemma_lines_text_prefix(lists.subrange(0, k as int), (k - 1) as nat);
        assert(lists.subrange(0, k as int).subrange(0, k - 1) =~= lists.subrange(0, k - 1));
    }
}

} // verus!
