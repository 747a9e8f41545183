use vstd::prelude::*;
use vstd::arithmetic::div_mod::lemma_fundamental_div_mod_converse;

verus! {

/// Weighted undirected graph on vertices `0..vertices`, stored as a dense
/// matrix; a weight of -1 means that there is no edge.
#[derive(Clone, PartialEq, Eq, Default, Debug, Hash)]
pub struct Graph {
    vertices: usize,
    weights: Vec<i64>,
}

/// Combines the best known distance `d` with a route through an intermediate
/// vertex of lengths `a` and `b`; -1 stands for "no route".
pub open spec fn join(d: int, a: int, b: int) -> int {
    if a == -1 || b == -1 {
        d
    } else if d == -1 || a + b < d {
        a + b
    } else {
        d
    }
}

/// The shortest-path recurrence over intermediate vertices: at `k == 0` the
/// direct edge (zero from a vertex to itself), and at each further step the
/// better of the previous distance and the route through vertex `k - 1`;
/// -1 where no route has been found.
pub open spec fn dist(g: Graph, k: nat, i: int, j: int) -> int
    decreases k,
{
    if k == 0 {
        if i == j {
            0
        } else {
            g.edge(i, j)
        }
    } else {
        let m = k - 1;
        join(dist(g, m as nat, i, j), dist(g, m as nat, i, m), dist(g, m as nat, m, j))
    }
}

/// No sum of two distances that the shortest-path computation adds exceeds
/// the range of `i64`.
pub open spec fn sums_fit(g: Graph) -> bool {
    forall|k: nat, i: int, j: int|
        k < g.size() && 0 <= i < g.size() && 0 <= j < g.size() && #[trigger] dist(g, k, i, k as int)
            >= 0 && #[trigger] dist(g, k, k as int, j) >= 0 ==> dist(g, k, i, k as int) + dist(
            g,
            k,
            k as int,
            j,
        ) <= i64::MAX
}

spec fn cell(n: int, i: int, j: int) -> int {
    i * n + j
}

proof fn lemma_cell(n: int, i: int, j: int)
    requires
        0 <= i < n,
        0 <= j < n,
    ensures
        i * n <= cell(n, i, j) < (i + 1) * n <= n * n,
        (i + 1) * n == i * n + n,
        forall|a: int, b: int|
            0 <= a < n && 0 <= b < n && #[trigger] cell(n, a, b) == cell(n, i, j) ==> a == i && b
                == j,
{
    assert((i + 1) * n <= n * n) by (nonlinear_arith)
        requires
            i + 1 <= n,
            n >= 0,
    ;
    assert((i + 1) * n == i * n + n) by (nonlinear_arith);
    lemma_fundamental_div_mod_converse(cell(n, i, j), n, i, j);
    assert forall|a: int, b: int|
        0 <= a < n && 0 <= b < n && #[trigger] cell(n, a, b) == cell(n, i, j) implies a == i && b
            == j by {
        lemma_fundamental_div_mod_converse(cell(n, a, b), n, a, b);
    }
}

impl Graph {
    /// Number of vertices.
    pub closed spec fn size(&self) -> nat {
        self.vertices as nat
    }

    /// Weight of the edge between `i` and `j`, or -1 where there is none.
    pub closed spec fn edge(&self, i: int, j: int) -> int {
        self.weights@[cell(self.vertices as int, i, j)] as int
    }

    /// The matrix has one entry per ordered pair of vertices, every weight is
    /// at least -1, and the matrix is symmetric.
    pub closed spec fn wf(&self) -> bool {
        &&& self.weights@.len() == self.vertices * self.vertices
        &&& self.vertices * self.vertices <= usize::MAX
        &&& forall|i: int, j: int|
            0 <= i < self.vertices && 0 <= j < self.vertices ==> #[trigger] self.edge(i, j) >= -1
                && self.edge(i, j) == self.edge(j, i)
    }

    /// A graph on `vertices` vertices with no edges.
    pub fn new(vertices: usize) -> (r: Graph)
        requires
            vertices * vertices <= usize::MAX,
        ensures
            r.wf(),
            r.size() == vertices,
            forall|i: int, j: int|
                0 <= i < vertices && 0 <= j < vertices ==> #[trigger] r.edge(i, j) == if i == j {
                    0
                } else {
                    -1
                },
    {
        let n = vertices;
        let mut weights: Vec<i64> = Vec::new();
        let mut i: usize = 0;
        while i < n
            invariant
                i <= n,
                n * n <= usize::MAX,
                weights@.len() == i * n,
                forall|a: int, b: int|
                    0 <= a < n && 0 <= b < n && cell(n as int, a, b) < weights@.len() ==> weights@[#[trigger] cell(
                        n as int,
                        a,
                        b,
                    )] == if a == b {
                        0
                    } else {
                        -1
                    },
            decreases n - i,
        {
            let mut j: usize = 0;
            while j < n
                invariant
                    i < n,
                    j <= n,
                    n * n <= usize::MAX,
                    weights@.len() == i * n + j,
                    forall|a: int, b: int|
                        0 <= a < n && 0 <= b < n && cell(n as int, a, b) < weights@.len()
                            ==> weights@[#[trigger] cell(n as int, a, b)] == if a == b {
                            0
                        } else {
                            -1
                        },
                decreases n - j,
            {
                proof {
                    lemma_cell(n as int, i as int, j as int);
                }
                let w: i64 = if i == j {
                    0
                } else {
                    -1
                };
                weights.push(w);
                j = j + 1;
            }
            proof {
                lemma_cell(n as int, i as int, 0);
            }
            i = i + 1;
        }
        let r = Graph { vertices, weights };
        proof {
            assert forall|a: int, b: int|
                0 <= a < n && 0 <= b < n implies #[trigger] r.edge(a, b) == if a == b {
                    0
                } else {
                    -1
                } by {
                lemma_cell(n as int, a, b);
            }
        }
        r
    }

    /// Returns the weight of the edge between the two vertices, or -1 where
    /// there is none.
    pub fn weight(&self, edge: (usize, usize)) -> (r: i64)
        requires
            self.wf(),
            edge.0 < self.size(),
            edge.1 < self.size(),
        ensures
            r == self.edge(edge.0 as int, edge.1 as int),
    {
        proof {
            lemma_cell(self.vertices as int, edge.0 as int, edge.1 as int);
        }
        self.weights[edge.0 * self.vertices + edge.1]
    }

    /// Sets the weight of the edge between the two vertices (-1 removes it)
    /// and returns the weight it had.
    pub fn set_weight(&mut self, edge: (usize, usize), weight: i64) -> (r: i64)
        requires
            old(self).wf(),
            edge.0 < old(self).size(),
            edge.1 < old(self).size(),
            weight >= -1,
        ensures
            final(self).wf(),
            final(self).size() == old(self).size(),
            r == old(self).edge(edge.0 as int, edge.1 as int),
            forall|a: int, b: int|
                0 <= a < old(self).size() && 0 <= b < old(self).size() ==> #[trigger] final(self).edge(a, b) == if (a == edge.0 && b == edge.1) || (a == edge.1 && b == edge.0) {
                    weight as int
                } else {
                    old(self).edge(a, b)
                },
    {
        let n = self.vertices;
        let (i, j) = edge;
        proof {
            lemma_cell(n as int, i as int, j as int);
            lemma_cell(n as int, j as int, i as int);
        }
        let old_weight = self.weights[i * n + j];
        self.weights[i * n + j] = weight;
        self.weights[j * n + i] = weight;
        proof {
            assert forall|a: int, b: int| 0 <= a < n && 0 <= b < n implies #[trigger] self.edge(a, b)
                == if (a == i && b == j) || (a == j && b == i) {
                weight as int
            } else {
                old(self).edge(a, b)
            } by {
                lemma_cell(n as int, a, b);
            }
            assert forall|a: int, b: int| 0 <= a < n && 0 <= b < n implies #[trigger] self.edge(a, b)
                >= -1 && self.edge(a, b) == self.edge(b, a) by {
                assert(old(self).edge(a, b) >= -1 && old(self).edge(a, b) == old(self).edge(b, a));
                lemma_cell(n as int, a, b);
                lemma_cell(n as int, b, a);
            }
        }
        old_weight
    }
}

proof fn lemma_dist_shape(g: Graph, k: nat, i: int, j: int)
    requires
        g.wf(),
        k <= g.size(),
        0 <= i < g.size(),
        0 <= j < g.size(),
    ensures
        dist(g, k, i, j) >= -1,
        dist(g, k, i, j) == dist(g, k, j, i),
    decreases k,
{
    if k > 0 {
        let m = (k - 1) as nat;
        lemma_dist_shape(g, m, i, j);
        lemma_dist_shape(g, m, i, m as int);
        lemma_dist_shape(g, m, m as int, j);
        lemma_dist_shape(g, m, j, m as int);
        lemma_dist_shape(g, m, m as int, i);
    } else {
        assert(g.edge(i, j) >= -1 && g.edge(i, j) == g.edge(j, i));
    }
}

/// Total weight of the edges along the vertex sequence `p`.
pub open spec fn route_len(g: Graph, p: Seq<int>) -> int
    decreases p.len(),
{
    if p.len() <= 1 {
        0
    } else {
        route_len(g, p.drop_last()) + g.edge(p[p.len() - 2], p[p.len() - 1])
    }
}

/// `p` is a route from `i` to `j` along edges of `g` whose intermediate
/// vertices are all below `k`.
pub open spec fn is_route(g: Graph, p: Seq<int>, i: int, j: int, k: int) -> bool {
    &&& p.len() >= 1
    &&& p[0] == i
    &&& p.last() == j
    &&& forall|t: int| 0 <= t < p.len() ==> 0 <= #[trigger] p[t] < g.size()
    &&& forall|t: int| 0 <= t < p.len() - 1 ==> #[trigger] g.edge(p[t], p[t + 1]) >= 0
    &&& forall|t: int| 0 < t < p.len() - 1 ==> #[trigger] p[t] < k
}

proof fn lemma_route_split(g: Graph, p: Seq<int>, t: int)
    requires
        0 <= t < p.len(),
    ensures
        route_len(g, p) == route_len(g, p.take(t + 1)) + route_len(g, p.skip(t)),
    decreases p.len(),
{
    if t == p.len() - 1 {
        assert(p.take(t + 1) =~= p);
    } else {
        let q = p.drop_last();
        lemma_route_split(g, q, t);
        assert(q.take(t + 1) =~= p.take(t + 1));
        assert(p.skip(t).drop_last() =~= q.skip(t));
        let u = p.skip(t);
        assert(u[u.len() - 2] == p[p.len() - 2]);
        assert(u[u.len() - 1] == p[p.len() - 1]);
    }
}

proof fn lemma_route_nonneg(g: Graph, p: Seq<int>)
    requires
        forall|t: int| 0 <= t < p.len() - 1 ==> #[trigger] g.edge(p[t], p[t + 1]) >= 0,
    ensures
        route_len(g, p) >= 0,
    decreases p.len(),
{
    if p.len() > 1 {
        let q = p.drop_last();
        assert forall|t: int| 0 <= t < q.len() - 1 implies #[trigger] g.edge(q[t], q[t + 1]) >= 0 by {
            assert(g.edge(p[t], p[t + 1]) >= 0);
        }
        lemma_route_nonneg(g, q);
        assert(g.edge(p[p.len() - 2], p[p.len() - 2 + 1]) >= 0);
    }
}

proof fn lemma_dist_diagonal(g: Graph, k: nat, v: int)
    requires
        g.wf(),
        k <= g.size(),
        0 <= v < g.size(),
    ensures
        dist(g, k, v, v) == 0,
    decreases k,
{
    if k > 0 {
        let m = (k - 1) as nat;
        lemma_dist_diagonal(g, m, v);
        lemma_dist_shape(g, m, v, m as int);
        lemma_dist_shape(g, m, m as int, v);
    }
}

/// Every route with intermediate vertices below `k` is at least as long as
/// the recurrence's distance, which is therefore not -1.
proof fn lemma_dist_below_routes(g: Graph, k: nat, p: Seq<int>, i: int, j: int)
    requires
        g.wf(),
        k <= g.size(),
        is_route(g, p, i, j, k as int),
    ensures
        dist(g, k, i, j) != -1,
        dist(g, k, i, j) <= route_len(g, p),
    decreases k, p.len(),
{
    lemma_dist_shape(g, k, i, j);
    lemma_route_nonneg(g, p);
    if p.len() == 1 {
        lemma_dist_diagonal(g, k, i);
    } else if k == 0 {
        if p.len() > 2 {
            assert(p[1] < 0);
        }
        assert(g.edge(p[0int], p[0int + 1]) >= 0);
        assert(route_len(g, p.drop_last()) == 0);
    } else {
        let m = (k - 1) as nat;
        if exists|t: int| 0 < t < p.len() - 1 && #[trigger] p[t] == m {
            let t = choose|t: int| 0 < t < p.len() - 1 && #[trigger] p[t] == m;
            let pre = p.take(t + 1);
            let post = p.skip(t);
            lemma_route_split(g, p, t);
            assert forall|x: int| 0 <= x < pre.len() - 1 implies #[trigger] g.edge(pre[x], pre[x + 1]) >= 0 by {
                assert(g.edge(p[x], p[x + 1]) >= 0);
            }
            assert forall|x: int| 0 <= x < post.len() - 1 implies #[trigger] g.edge(post[x], post[x + 1]) >= 0 by {
                assert(g.edge(p[x + t], p[x + t + 1]) >= 0);
            }
            assert forall|x: int| 0 <= x < post.len() implies 0 <= #[trigger] post[x] < g.size() by {
                assert(0 <= p[x + t] < g.size());
            }
            assert forall|x: int| 0 < x < post.len() - 1 implies #[trigger] post[x] < k by {
                assert(p[x + t] < k);
            }
            lemma_dist_below_routes(g, k, pre, i, m as int);
            lemma_dist_below_routes(g, k, post, m as int, j);
            lemma_dist_diagonal(g, m, m as int);
            lemma_dist_shape(g, m, i, m as int);
            lemma_dist_shape(g, m, m as int, j);
            lemma_dist_shape(g, m, i, j);
            lemma_dist_diagonal(g, m, i);
            lemma_dist_diagonal(g, m, j);
            assert(dist(g, k, i, m as int) == dist(g, m, i, m as int));
            assert(dist(g, k, m as int, j) == dist(g, m, m as int, j));
            assert(route_len(g, p) == route_len(g, pre) + route_len(g, post));
        } else {
            assert forall|x: int| 0 < x < p.len() - 1 implies #[trigger] p[x] < m by {
                assert(p[x] < k);
            }
            lemma_dist_below_routes(g, m, p, i, j);
            lemma_dist_shape(g, m, i, m as int);
            lemma_dist_shape(g, m, m as int, j);
        }
    }
}

/// Where the recurrence's distance is not -1, some route with intermediate
/// vertices below `k` has exactly that length.
proof fn lemma_dist_attained(g: Graph, k: nat, i: int, j: int) -> (p: Seq<int>)
    requires
        g.wf(),
        k <= g.size(),
        0 <= i < g.size(),
        0 <= j < g.size(),
        dist(g, k, i, j) != -1,
    ensures
        is_route(g, p, i, j, k as int),
        route_len(g, p) == dist(g, k, i, j),
    decreases k,
{
    if k == 0 {
        if i == j {
            seq![i]
        } else {
            let p = seq![i, j];
            assert(p.drop_last() =~= seq![i]);
            assert(route_len(g, p.drop_last()) == 0);
            assert(g.edge(p[0int], p[0int + 1]) >= -1);
            p
        }
    } else {
        let m = (k - 1) as nat;
        let d = dist(g, m, i, j);
        let a = dist(g, m, i, m as int);
        let b = dist(g, m, m as int, j);
        if a == -1 || b == -1 || (d != -1 && a + b >= d) {
            let p = lemma_dist_attained(g, m, i, j);
            assert(dist(g, k, i, j) == d);
            p
        } else {
            let p1 = lemma_dist_attained(g, m, i, m as int);
            let p2 = lemma_dist_attained(g, m, m as int, j);
            let p = p1 + p2.skip(1);
            let t = p1.len() - 1;
            assert(p.take(t + 1) =~= p1);
            assert(p.skip(t) =~= p2);
            lemma_route_split(g, p, t);
            assert(route_len(g, p) == a + b);
            assert forall|x: int| 0 <= x < p.len() - 1 implies #[trigger] g.edge(p[x], p[x + 1]) >= 0 by {
                if x < t {
                    assert(g.edge(p1[x], p1[x + 1]) >= 0);
                } else {
                    assert(g.edge(p2[x - t], p2[x - t + 1]) >= 0);
                }
            }
            assert forall|x: int| 0 <= x < p.len() implies 0 <= #[trigger] p[x] < g.size() by {
                if x <= t {
                    assert(0 <= p1[x] < g.size());
                } else {
                    assert(0 <= p2[x - t] < g.size());
                }
            }
            assert forall|x: int| 0 < x < p.len() - 1 implies #[trigger] p[x] < k by {
                if x < t {
                    assert(p1[x] < m);
                } else if x > t {
                    assert(p2[x - t] < m);
                }
            }
            p
        }
    }
}

/// The recurrence carried through all vertices gives shortest distances:
/// -1 exactly where no route joins the two vertices, and otherwise the
/// length of a route that no other route undercuts.
pub proof fn lemma_dist_is_shortest(g: Graph, i: int, j: int)
    requires
        g.wf(),
        0 <= i < g.size(),
        0 <= j < g.size(),
    ensures
        dist(g, g.size(), i, j) == -1 <==> forall|p: Seq<int>|
            !(#[trigger] is_route(g, p, i, j, g.size() as int)),
        dist(g, g.size(), i, j) != -1 ==> exists|p: Seq<int>|
            #[trigger] is_route(g, p, i, j, g.size() as int) && route_len(g, p) == dist(
                g,
                g.size(),
                i,
                j,
            ),
        forall|p: Seq<int>| #[trigger]
            is_route(g, p, i, j, g.size() as int) ==> dist(g, g.size(), i, j) <= route_len(g, p),
{
    let n = g.size();
    assert forall|p: Seq<int>| #[trigger] is_route(g, p, i, j, n as int) implies dist(g, n, i, j)
        != -1 && dist(g, n, i, j) <= route_len(g, p) by {
        lemma_dist_below_routes(g, n, p, i, j);
    }
    if dist(g, n, i, j) != -1 {
        let p = lemma_dist_attained(g, n, i, j);
        assert(is_route(g, p, i, j, n as int));
    }
}

/// Returns the graph of shortest distances: the weight between two vertices
/// is the recurrence `dist` carried through all vertices of `graph`.
pub fn warshall_floyd(graph: Graph) -> (r: Graph)
    requires
        graph.wf(),
        sums_fit(graph),
    ensures
        r.wf(),
        r.size() == graph.size(),
        forall|i: int, j: int|
            0 <= i < graph.size() && 0 <= j < graph.size() ==> #[trigger] r.edge(i, j) == dist(
                graph,
                graph.size(),
                i,
                j,
            ),
{
    let n = graph.vertices;
    let ghost g = graph;
    let mut cur: Vec<i64> = Vec::new();
    let mut i: usize = 0;
    while i < n
        invariant
            g == graph,
            g.wf(),
            n == g.size(),
            i <= n,
            cur@.len() == i * n,
            forall|a: int, b: int|
                0 <= a < n && 0 <= b < n && cell(n as int, a, b) < cur@.len() ==> cur@[#[trigger] cell(
                    n as int,
                    a,
                    b,
                )] == dist(g, 0, a, b),
        decreases n - i,
    {
        let mut j: usize = 0;
        while j < n
            invariant
                g == graph,
                g.wf(),
                n == g.size(),
                i < n,
                j <= n,
                cur@.len() == i * n + j,
                forall|a: int, b: int|
                    0 <= a < n && 0 <= b < n && cell(n as int, a, b) < cur@.len() ==> cur@[#[trigger] cell(
                        n as int,
                        a,
                        b,
                    )] == dist(g, 0, a, b),
            decreases n - j,
        {
            proof {
                lemma_cell(n as int, i as int, j as int);
            }
            let w: i64 = if i == j {
                0
            } else {
                graph.weights[i * n + j]
            };
            cur.push(w);
            j = j + 1;
        }
        proof {
            lemma_cell(n as int, i as int, 0);
        }
        i = i + 1;
    }
    proof {
        assert forall|a: int, b: int| 0 <= a < n && 0 <= b < n implies cell(n as int, a, b) < cur@.len() by {
            lemma_cell(n as int, a, b);
        }
    }
    let mut k: usize = 0;
    while k < n
        invariant
            g == graph,
            g.wf(),
            sums_fit(g),
            n == g.size(),
            k <= n,
            cur@.len() == n * n,
            forall|a: int, b: int|
                0 <= a < n && 0 <= b < n ==> cur@[#[trigger] cell(n as int, a, b)] == dist(
                    g,
                    k as nat,
                    a,
                    b,
                ),
        decreases n - k,
    {
        let mut next: Vec<i64> = Vec::new();
        let mut i: usize = 0;
        while i < n
            invariant
                g == graph,
                g.wf(),
                sums_fit(g),
                n == g.size(),
                k < n,
                i <= n,
                cur@.len() == n * n,
                forall|a: int, b: int|
                    0 <= a < n && 0 <= b < n ==> cur@[#[trigger] cell(n as int, a, b)] == dist(
                        g,
                        k as nat,
                        a,
                        b,
                    ),
                next@.len() == i * n,
                forall|a: int, b: int|
                    0 <= a < n && 0 <= b < n && cell(n as int, a, b) < next@.len()
                        ==> next@[#[trigger] cell(n as int, a, b)] == dist(g, (k + 1) as nat, a, b),
            decreases n - i,
        {
            let mut j: usize = 0;
            while j < n
                invariant
                    g == graph,
                    g.wf(),
                    sums_fit(g),
                    n == g.size(),
                    k < n,
                    i < n,
                    j <= n,
                    cur@.len() == n * n,
                    forall|a: int, b: int|
                        0 <= a < n && 0 <= b < n ==> cur@[#[trigger] cell(n as int, a, b)] == dist(
                            g,
                            k as nat,
                            a,
                            b,
                        ),
                    next@.len() == i * n + j,
                    forall|a: int, b: int|
                        0 <= a < n && 0 <= b < n && cell(n as int, a, b) < next@.len()
                            ==> next@[#[trigger] cell(n as int, a, b)] == dist(
                            g,
                            (k + 1) as nat,
                            a,
                            b,
                        ),
                decreases n - j,
            {
                proof {
                    lemma_cell(n as int, i as int, j as int);
                    lemma_cell(n as int, i as int, k as int);
                    lemma_cell(n as int, k as int, j as int);
                    lemma_dist_shape(g, k as nat, i as int, j as int);
                    lemma_dist_shape(g, k as nat, i as int, k as int);
                    lemma_dist_shape(g, k as nat, k as int, j as int);
                }
                let direct = cur[i * n + j];
                let first = cur[i * n + k];
                let second = cur[k * n + j];
                let w = if first == -1 || second == -1 {
                    direct
                } else {
                    let sum = first + second;
                    if direct == -1 || sum < direct {
                        sum
                    } else {
                        direct
                    }
                };
                next.push(w);
                j = j + 1;
            }
            proof {
                lemma_cell(n as int, i as int, 0);
            }
            i = i + 1;
        }
        proof {
            assert forall|a: int, b: int| 0 <= a < n && 0 <= b < n implies cell(n as int, a, b) < next@.len() by {
                lemma_cell(n as int, a, b);
            }
        }
        cur = next;
        k = k + 1;
    }
    let r = Graph { vertices: n, weights: cur };
    proof {
        assert forall|a: int, b: int| 0 <= a < n && 0 <= b < n implies #[trigger] r.edge(a, b) >= -1
            && r.edge(a, b) == r.edge(b, a) by {
            lemma_dist_shape(g, n as nat, a, b);
        }
    }
    r
}

} // verus!
