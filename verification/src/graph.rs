//! The graph model: nodes, directed connections, adjacency in both
//! directions, and the reverse topological sort that assigns every node a
//! depth level counted from the sinks.

use vstd::prelude::*;

use crate::text::append_str;
use std::collections::VecDeque;

verus! {

/// A node: a string key unique in the description, a display name, and an
/// optional operation label.
#[derive(Clone, Debug)]
pub struct Node {
    pub id: String,
    pub name: String,
    pub op: Option<String>,
}

/// A directed connection between two nodes, by index into the node list.
/// The `from` node produces a value consumed by the `to` node.
#[derive(Clone, Debug)]
pub struct Connection {
    pub from_index: usize,
    pub to_index: usize,
}

/// The graph: the node list in insertion order, and the connections grouped
/// once by their source and once by their destination.
///
/// The fields are public so that contracts can speak of them; they are meant
/// to be read, not changed, after construction.
#[derive(Clone, Debug)]
pub struct Graph {
    pub nodes: Vec<Node>,
    pub from_connections: Vec<Vec<Connection>>,
    pub to_connections: Vec<Vec<Connection>>,
}

/// The errors of graph construction and level assignment.
#[derive(Debug)]
pub enum GraphError {
    ParseError { message: String },
    InternalError { message: String },
}

/// The result of level assignment: the node indices in render order, the
/// depth of each position, the index of each position within its depth
/// level, and the number of nodes in each level.
pub struct SortOrder {
    pub order_indices: Vec<usize>,
    pub depths: Vec<usize>,
    pub index_at_depth: Vec<usize>,
    pub nodes_in_level: Vec<usize>,
}

/// Some connection in `s` leads to `w`.
pub open spec fn seq_has_to(s: Seq<Connection>, w: int) -> bool {
    exists|k: int| 0 <= k < s.len() && (#[trigger] s[k]).to_index == w
}

/// Some connection in `s` comes from `u`.
pub open spec fn seq_has_from(s: Seq<Connection>, u: int) -> bool {
    exists|k: int| 0 <= k < s.len() && (#[trigger] s[k]).from_index == u
}

impl Graph {
    pub open spec fn node_count(self) -> int {
        self.nodes@.len() as int
    }

    /// `v` has no outgoing connections.
    pub open spec fn is_sink(self, v: int) -> bool {
        self.from_connections@[v]@.len() == 0
    }

    /// Some connection leads from `u` to `w`, read off the table grouped by
    /// destination.
    pub open spec fn has_edge(self, u: int, w: int) -> bool {
        seq_has_from(self.to_connections@[w]@, u)
    }

    /// Some connection leads from `u` to `w`, read off the table grouped by
    /// source.
    pub open spec fn from_edge(self, u: int, w: int) -> bool {
        seq_has_to(self.from_connections@[u]@, w)
    }

    /// Well-formedness: both adjacency tables have one entry list per node,
    /// every connection carries valid indices and sits in the lists of both
    /// of its endpoints.
    pub open spec fn wf(self) -> bool {
        let n = self.node_count();
        &&& self.from_connections@.len() == n
        &&& self.to_connections@.len() == n
        &&& forall|v: int, k: int|
            0 <= v < n && 0 <= k < self.from_connections@[v]@.len() ==> {
                let c = #[trigger] self.from_connections@[v]@[k];
                c.from_index == v && 0 <= c.to_index < n
            }
        &&& forall|v: int, k: int|
            0 <= v < n && 0 <= k < self.to_connections@[v]@.len() ==> {
                let c = #[trigger] self.to_connections@[v]@[k];
                c.to_index == v && 0 <= c.from_index < n
            }
        &&& forall|u: int, w: int|
            0 <= u < n && 0 <= w < n ==> ((#[trigger] self.from_edge(u, w)) <==> (#[trigger] self.has_edge(
                u,
                w,
            )))
    }

    /// The number of nodes.
    pub fn node_size(&self) -> (r: usize)
        ensures
            r == self.nodes@.len(),
    {
        self.nodes.len()
    }

    /// Read access to a node by index.
    pub fn node(&self, node_index: usize) -> (r: &Node)
        requires
            node_index < self.nodes@.len(),
        ensures
            *r == self.nodes@[node_index as int],
    {
        &self.nodes[node_index]
    }

    /// Read access to the table of connections grouped by destination.
    pub fn to_connections(&self) -> (r: &Vec<Vec<Connection>>)
        ensures
            r == &self.to_connections,
    {
        &self.to_connections
    }
}

impl Graph {
    /// `d` assigns every node its depth: sinks sit at depth zero, every
    /// other node sits exactly one level above the deepest node it feeds,
    /// and no depth reaches the node count.
    pub open spec fn depth_assignment(self, d: Seq<int>) -> bool {
        let n = self.node_count();
        &&& d.len() == n
        &&& forall|v: int| 0 <= v < n ==> 0 <= #[trigger] d[v] < n
        &&& forall|v: int| 0 <= v < n ==> ((#[trigger] self.is_sink(v)) <==> d[v] == 0)
        &&& forall|u: int, w: int|
            0 <= u < n && 0 <= w < n && #[trigger] self.has_edge(u, w) ==> d[u] >= d[w] + 1
        &&& forall|u: int|
            0 <= u < n && !(#[trigger] self.is_sink(u)) ==> exists|w: int|
                0 <= w < n && self.has_edge(u, w) && d[u] == d[w] + 1
    }

    /// A depth assignment exists; level assignment succeeds exactly here.
    pub open spec fn sortable(self) -> bool {
        self.node_count() > 0 && exists|d: Seq<int>| self.depth_assignment(d)
    }
}

impl SortOrder {
    /// Some position of the render order holds `v`.
    pub open spec fn has_position(self, v: int) -> bool {
        exists|j: int| 0 <= j < self.order_indices@.len() && #[trigger] self.order_indices@[j] == v
    }

    /// The position of node `v` in the render order.
    pub open spec fn position_of(self, v: int) -> int {
        choose|j: int| 0 <= j < self.order_indices@.len() && #[trigger] self.order_indices@[j] == v
    }

    /// The depth level of node `v`.
    pub open spec fn node_depth(self, v: int) -> int {
        self.depths@[self.position_of(v)] as int
    }

    /// The depths of all `n` nodes, indexed by node.
    pub open spec fn node_depths(self, n: int) -> Seq<int> {
        Seq::new(n as nat, |v: int| self.node_depth(v))
    }

    /// The sort order describes graph `g`: its order array is a permutation
    /// of the nodes sorted by depth, ties broken by node index; the depths
    /// per node form a depth assignment of `g`; the in-level indices count
    /// earlier positions of the same depth; and the level table counts the
    /// nodes of each depth, every level occupied.
    pub open spec fn valid_for(self, g: Graph) -> bool {
        let n = g.node_count();
        let ord = self.order_indices@;
        let dep = self.depths@;
        &&& ord.len() == n
        &&& dep.len() == n
        &&& self.index_at_depth@.len() == n
        &&& n > 0
        &&& forall|j: int| 0 <= j < n ==> 0 <= #[trigger] ord[j] < n
        &&& forall|j1: int, j2: int| 0 <= j1 < j2 < n ==> ord[j1] != ord[j2]
        &&& forall|v: int| 0 <= v < n ==> #[trigger] self.has_position(v)
        &&& forall|j1: int, j2: int| 0 <= j1 <= j2 < n ==> dep[j1] <= dep[j2]
        &&& forall|j1: int, j2: int| 0 <= j1 < j2 < n && dep[j1] == dep[j2] ==> ord[j1] < ord[j2]
        &&& forall|j: int| 0 <= j < n ==> #[trigger] dep[j] == self.node_depth(ord[j] as int)
        &&& forall|j: int|
            0 <= j < n ==> #[trigger] self.index_at_depth@[j] == count_eq_upto(dep, dep[j] as int, j)
        &&& self.nodes_in_level@.len() == dep[n - 1] + 1
        &&& forall|d: int|
            0 <= d < self.nodes_in_level@.len() ==> #[trigger] self.nodes_in_level@[d] == count_eq_upto(
                dep,
                d,
                n,
            ) && self.nodes_in_level@[d] >= 1
        &&& g.depth_assignment(self.node_depths(n))
    }
}

/// How many of the first `upto` entries of `s` equal `x`.
pub open spec fn count_eq_upto(s: Seq<usize>, x: int, upto: int) -> int
    decreases upto,
{
    if upto <= 0 {
        0
    } else {
        count_eq_upto(s, x, upto - 1) + if s[upto - 1] == x {
            1int
        } else {
            0int
        }
    }
}

/// How many of the first `upto` entries of `s` lie below `x`.
pub open spec fn count_lt_upto(s: Seq<usize>, x: int, upto: int) -> int
    decreases upto,
{
    if upto <= 0 {
        0
    } else {
        count_lt_upto(s, x, upto - 1) + if s[upto - 1] < x {
            1int
        } else {
            0int
        }
    }
}

proof fn lemma_count_prefix(s1: Seq<usize>, s2: Seq<usize>, x: int, upto: int)
    requires
        0 <= upto <= s1.len(),
        upto <= s2.len(),
        forall|i: int| 0 <= i < upto ==> s1[i] == s2[i],
    ensures
        count_eq_upto(s1, x, upto) == count_eq_upto(s2, x, upto),
    decreases upto,
{
    if upto > 0 {
        lemma_count_prefix(s1, s2, x, upto - 1);
    }
}

proof fn lemma_count_absent(s: Seq<usize>, x: int, from: int, upto: int)
    requires
        0 <= from <= upto <= s.len(),
        forall|i: int| from <= i < upto ==> s[i] != x,
    ensures
        count_eq_upto(s, x, upto) == count_eq_upto(s, x, from),
    decreases upto,
{
    if upto > from {
        lemma_count_absent(s, x, from, upto - 1);
    }
}

proof fn lemma_count_pos(s: Seq<usize>, x: int, upto: int, i: int)
    requires
        0 <= i < upto <= s.len(),
        s[i] == x,
    ensures
        count_eq_upto(s, x, upto) >= 1,
    decreases upto,
{
    lemma_count_eq_bound(s, x, 0, upto - 1);
    if i < upto - 1 {
        lemma_count_pos(s, x, upto - 1, i);
    }
}

proof fn lemma_count_split(s: Seq<usize>, x: int, upto: int)
    requires
        0 <= upto <= s.len(),
    ensures
        count_lt_upto(s, x + 1, upto) == count_lt_upto(s, x, upto) + count_eq_upto(s, x, upto),
    decreases upto,
{
    if upto > 0 {
        lemma_count_split(s, x, upto - 1);
    }
}

proof fn lemma_count_lt_all(s: Seq<usize>, x: int, upto: int)
    requires
        0 <= upto <= s.len(),
        forall|i: int| 0 <= i < upto ==> s[i] < x,
    ensures
        count_lt_upto(s, x, upto) == upto,
    decreases upto,
{
    if upto > 0 {
        lemma_count_lt_all(s, x, upto - 1);
    }
}

proof fn lemma_count_lt_zero(s: Seq<usize>, upto: int)
    requires
        0 <= upto <= s.len(),
    ensures
        count_lt_upto(s, 0, upto) == 0,
    decreases upto,
{
    if upto > 0 {
        lemma_count_lt_zero(s, upto - 1);
    }
}

pub proof fn lemma_count_eq_bound(s: Seq<usize>, x: int, a: int, b: int)
    requires
        0 <= a <= b <= s.len(),
    ensures
        count_eq_upto(s, x, a) <= count_eq_upto(s, x, b) <= count_eq_upto(s, x, a) + (b - a),
    decreases b,
{
    if b > a {
        lemma_count_eq_bound(s, x, a, b - 1);
    }
}

proof fn lemma_count_lt_bound(s: Seq<usize>, x: int, upto: int)
    requires
        0 <= upto <= s.len(),
    ensures
        0 <= count_lt_upto(s, x, upto) <= upto,
    decreases upto,
{
    if upto > 0 {
        lemma_count_lt_bound(s, x, upto - 1);
    }
}

/// Some node of `dist` sits at depth `d`.
pub open spec fn level_occupied(dist: Seq<usize>, d: int) -> bool {
    exists|u: int| 0 <= u < dist.len() && #[trigger] dist[u] == d
}

/// `v` has been given a final depth; `usize::MAX` is the unset sentinel.
pub open spec fn finalized(dist: Seq<usize>, v: int) -> bool {
    dist[v] != usize::MAX
}

/// The per-node depths as mathematical integers.
pub open spec fn dist_ints(dist: Seq<usize>) -> Seq<int> {
    Seq::new(dist.len(), |v: int| dist[v] as int)
}

/// Work left for node value `x`: largest when unset, shrinking as the set
/// depth grows toward `n`.
pub open spec fn bfs_weight(n: int, x: usize) -> int {
    if x == usize::MAX {
        n + 1
    } else if x < n {
        n - x
    } else {
        0
    }
}

/// The work left over the first `upto` nodes.
pub open spec fn bfs_weight_sum(dist: Seq<usize>, n: int, upto: int) -> int
    decreases upto,
{
    if upto <= 0 {
        0
    } else {
        bfs_weight_sum(dist, n, upto - 1) + bfs_weight(n, dist[upto - 1])
    }
}

proof fn lemma_weight_sum_nonneg(dist: Seq<usize>, n: int, upto: int)
    requires
        0 <= upto <= dist.len(),
        n >= 0,
    ensures
        bfs_weight_sum(dist, n, upto) >= 0,
    decreases upto,
{
    if upto > 0 {
        lemma_weight_sum_nonneg(dist, n, upto - 1);
    }
}

proof fn lemma_weight_sum_update(dist: Seq<usize>, n: int, upto: int, v: int, x: usize)
    requires
        0 <= v < dist.len(),
        0 <= upto <= dist.len(),
    ensures
        bfs_weight_sum(dist.update(v, x), n, upto) == if v < upto {
            bfs_weight_sum(dist, n, upto) - bfs_weight(n, dist[v]) + bfs_weight(n, x)
        } else {
            bfs_weight_sum(dist, n, upto)
        },
    decreases upto,
{
    if upto > 0 {
        lemma_weight_sum_update(dist, n, upto - 1, v, x);
        assert(dist.update(v, x).len() == dist.len());
        if v == upto - 1 {
            assert(dist.update(v, x)[upto - 1] == x);
        } else {
            assert(dist.update(v, x)[upto - 1] == dist[upto - 1]);
        }
    }
}

/// `i` carries the least value among the first `n` entries of `d`.
pub open spec fn is_min_upto(d: Seq<int>, n: int, i: int) -> bool {
    0 <= i < n && (forall|j: int| 0 <= j < n ==> d[i] <= #[trigger] d[j])
}

proof fn lemma_int_seq_min(d: Seq<int>, n: int)
    requires
        1 <= n <= d.len(),
    ensures
        exists|i: int| #[trigger] is_min_upto(d, n, i),
    decreases n,
{
    if n == 1 {
        assert(is_min_upto(d, n, 0));
    } else {
        lemma_int_seq_min(d, n - 1);
        let i0 = choose|i: int| #[trigger] is_min_upto(d, n - 1, i);
        if d[n - 1] < d[i0] {
            assert(is_min_upto(d, n, n - 1));
        } else {
            assert(is_min_upto(d, n, i0));
        }
    }
}

/// Every graph that has a depth assignment has a sink: a node of least
/// depth can feed no one.
pub proof fn lemma_assignment_has_sink(g: Graph, d: Seq<int>)
    requires
        g.wf(),
        g.node_count() > 0,
        g.depth_assignment(d),
    ensures
        exists|v: int| 0 <= v < g.node_count() && #[trigger] g.is_sink(v),
{
    let n = g.node_count();
    lemma_int_seq_min(d, n);
    let m = choose|i: int| #[trigger] is_min_upto(d, n, i);
    if !g.is_sink(m) {
        let w = choose|w: int| 0 <= w < n && g.has_edge(m, w) && d[m] == d[w] + 1;
        assert(d[m] <= d[w]);
        assert(false);
    }
}

proof fn lemma_reachable_finalized(g: Graph, dist: Seq<usize>, gd: Seq<int>, bound: int)
    requires
        g.wf(),
        dist.len() == g.node_count(),
        g.depth_assignment(gd),
        bound >= 0,
        forall|v: int| 0 <= v < g.node_count() && #[trigger] g.is_sink(v) ==> finalized(dist, v),
        forall|w: int, u: int|
            0 <= w < g.node_count() && 0 <= u < g.node_count() && #[trigger] finalized(dist, w)
                && #[trigger] g.has_edge(u, w) ==> finalized(dist, u),
    ensures
        forall|v: int| 0 <= v < g.node_count() && gd[v] <= bound ==> #[trigger] finalized(dist, v),
    decreases bound,
{
    let n = g.node_count();
    if bound == 0 {
        assert forall|v: int| 0 <= v < n && gd[v] <= bound implies #[trigger] finalized(dist, v) by {
            assert(gd[v] == 0);
            assert(g.is_sink(v));
        }
    } else {
        lemma_reachable_finalized(g, dist, gd, bound - 1);
        assert forall|v: int| 0 <= v < n && gd[v] <= bound implies #[trigger] finalized(dist, v) by {
            if gd[v] == bound {
                assert(gd[v] != 0);
                assert(!g.is_sink(v));
                let w = choose|w: int| 0 <= w < n && g.has_edge(v, w) && gd[v] == gd[w] + 1;
                assert(gd[w] <= bound - 1);
                assert(finalized(dist, w));
            }
        }
    }
}

/// `p` walks along connections and returns to its start.
pub open spec fn is_cycle(g: Graph, p: Seq<int>) -> bool {
    &&& p.len() >= 2
    &&& forall|i: int| 0 <= i < p.len() ==> 0 <= #[trigger] p[i] < g.node_count()
    &&& forall|i: int| 0 <= i < p.len() - 1 ==> g.has_edge(#[trigger] p[i], p[i + 1])
    &&& p[0] == p[p.len() - 1]
}

proof fn lemma_path_descends(g: Graph, d: Seq<int>, p: Seq<int>, upto: int)
    requires
        g.wf(),
        g.depth_assignment(d),
        1 <= upto <= p.len(),
        forall|i: int| 0 <= i < p.len() ==> 0 <= #[trigger] p[i] < g.node_count(),
        forall|i: int| 0 <= i < p.len() - 1 ==> g.has_edge(#[trigger] p[i], p[i + 1]),
    ensures
        d[p[0]] >= d[p[upto - 1]] + upto - 1,
    decreases upto,
{
    if upto > 1 {
        lemma_path_descends(g, d, p, upto - 1);
        assert(g.has_edge(p[upto - 2], p[upto - 1]));
    }
}

/// A graph that holds a cycle has no depth assignment; with the level
/// assignment's contract this means a cyclic graph is always refused.
pub proof fn lemma_cycle_no_assignment(g: Graph, p: Seq<int>)
    requires
        g.wf(),
        is_cycle(g, p),
    ensures
        !exists|d: Seq<int>| g.depth_assignment(d),
{
    if exists|d: Seq<int>| g.depth_assignment(d) {
        let d = choose|d: Seq<int>| g.depth_assignment(d);
        lemma_path_descends(g, d, p, p.len() as int);
        assert(false);
    }
}

/// Builds the render order from per-node depths: nodes sorted by depth,
/// ties broken by node index, together with the in-level index of every
/// position and the per-level node counts.
fn assemble(dist: &Vec<usize>) -> (so: SortOrder)
    requires
        dist@.len() >= 1,
        forall|v: int| 0 <= v < dist@.len() ==> #[trigger] dist@[v] < dist@.len(),
        forall|v: int, d2: int|
            #![trigger dist@[v], level_occupied(dist@, d2)]
            0 <= v < dist@.len() && 0 <= d2 <= dist@[v] ==> level_occupied(dist@, d2),
    ensures
        so.order_indices@.len() == dist@.len(),
        so.depths@.len() == dist@.len(),
        so.index_at_depth@.len() == dist@.len(),
        forall|j: int|
            0 <= j < dist@.len() ==> 0 <= #[trigger] so.order_indices@[j] < dist@.len()
                && so.depths@[j] == dist@[so.order_indices@[j] as int],
        forall|j1: int, j2: int|
            0 <= j1 < j2 < dist@.len() ==> so.order_indices@[j1] != so.order_indices@[j2],
        forall|v: int| 0 <= v < dist@.len() ==> #[trigger] so.has_position(v),
        forall|j1: int, j2: int| 0 <= j1 <= j2 < dist@.len() ==> so.depths@[j1] <= so.depths@[j2],
        forall|j1: int, j2: int|
            0 <= j1 < j2 < dist@.len() && so.depths@[j1] == so.depths@[j2]
                ==> so.order_indices@[j1] < so.order_indices@[j2],
        forall|j: int|
            0 <= j < dist@.len() ==> #[trigger] so.index_at_depth@[j] == count_eq_upto(
                so.depths@,
                so.depths@[j] as int,
                j,
            ),
        so.nodes_in_level@.len() == so.depths@[dist@.len() - 1] + 1,
        forall|d: int|
            0 <= d < so.nodes_in_level@.len() ==> #[trigger] so.nodes_in_level@[d] == count_eq_upto(
                so.depths@,
                d,
                dist@.len() as int,
            ) && so.nodes_in_level@[d] >= 1,
{
    let n = dist.len();
    let mut maxd: usize = 0;
    let mut t: usize = 0;
    while t < n
        invariant
            t <= n,
            n == dist@.len(),
            forall|v: int| 0 <= v < t ==> #[trigger] dist@[v] <= maxd,
            maxd == 0 || exists|v: int| 0 <= v < t && #[trigger] dist@[v] == maxd,
        decreases n - t,
    {
        if dist[t] > maxd {
            maxd = dist[t];
        }
        t = t + 1;
    }
    proof {
        assert(dist@[0] <= maxd);
        if maxd != 0 {
            assert(exists|v: int| 0 <= v < n && #[trigger] dist@[v] == maxd);
        } else {
            assert(dist@[0] == 0);
            assert(dist@[0] == maxd);
        }
        assert(level_occupied(dist@, maxd as int));
        assert(maxd < n);
    }
    let mut order_indices: Vec<usize> = Vec::new();
    let mut depths: Vec<usize> = Vec::new();
    let mut index_at_depth: Vec<usize> = Vec::new();
    let mut nodes_in_level: Vec<usize> = Vec::new();
    let mut d: usize = 0;
    proof {
        lemma_count_lt_zero(dist@, n as int);
    }
    while d <= maxd
        invariant
            n == dist@.len(),
            n >= 1,
            maxd < n,
            forall|v: int| 0 <= v < n ==> #[trigger] dist@[v] <= maxd,
            forall|v: int, d2: int|
                #![trigger dist@[v], level_occupied(dist@, d2)]
                0 <= v < n && 0 <= d2 <= dist@[v] ==> level_occupied(dist@, d2),
            level_occupied(dist@, maxd as int),
            d <= maxd + 1,
            order_indices@.len() == depths@.len(),
            order_indices@.len() == index_at_depth@.len(),
            order_indices@.len() == count_lt_upto(dist@, d as int, n as int),
            order_indices@.len() <= n,
            forall|j: int| 0 <= j < order_indices@.len() ==> 0 <= #[trigger] order_indices@[j] < n,
            forall|j: int|
                0 <= j < depths@.len() ==> #[trigger] depths@[j] == dist@[order_indices@[j] as int],
            forall|j: int| 0 <= j < depths@.len() ==> #[trigger] depths@[j] < d,
            forall|j1: int, j2: int|
                0 <= j1 < j2 < order_indices@.len() ==> order_indices@[j1] != order_indices@[j2],
            forall|v: int|
                0 <= v < n && dist@[v] < d ==> exists|j: int|
                    0 <= j < order_indices@.len() && #[trigger] order_indices@[j] == v,
            forall|j1: int, j2: int| 0 <= j1 <= j2 < depths@.len() ==> depths@[j1] <= depths@[j2],
            forall|j1: int, j2: int|
                0 <= j1 < j2 < depths@.len() && depths@[j1] == depths@[j2] ==> order_indices@[j1]
                    < order_indices@[j2],
            forall|j: int|
                0 <= j < depths@.len() ==> #[trigger] index_at_depth@[j] == count_eq_upto(
                    depths@,
                    depths@[j] as int,
                    j,
                ),
            nodes_in_level@.len() == d,
            forall|d2: int|
                0 <= d2 < d ==> #[trigger] nodes_in_level@[d2] == count_eq_upto(
                    depths@,
                    d2,
                    depths@.len() as int,
                ) && nodes_in_level@[d2] >= 1,
        decreases maxd + 1 - d,
    {
        let mut cnt: usize = 0;
        let mut v: usize = 0;
        proof {
            lemma_count_absent(depths@, d as int, 0, depths@.len() as int);
        }
        while v < n
            invariant
                n == dist@.len(),
                n >= 1,
                maxd < n,
                d <= maxd,
                v <= n,
                cnt <= v,
                forall|v2: int| 0 <= v2 < n ==> #[trigger] dist@[v2] <= maxd,
                order_indices@.len() == depths@.len(),
                order_indices@.len() == index_at_depth@.len(),
                order_indices@.len() == count_lt_upto(dist@, d as int, n as int) + count_eq_upto(
                    dist@,
                    d as int,
                    v as int,
                ),
                order_indices@.len() <= n,
                cnt == count_eq_upto(dist@, d as int, v as int),
                cnt == count_eq_upto(depths@, d as int, depths@.len() as int),
                forall|j: int| 0 <= j < order_indices@.len() ==> 0 <= #[trigger] order_indices@[j] < n,
                forall|j: int|
                    0 <= j < depths@.len() ==> #[trigger] depths@[j] == dist@[order_indices@[j] as int],
                forall|j: int| 0 <= j < depths@.len() ==> #[trigger] depths@[j] <= d,
                forall|j: int|
                    0 <= j < order_indices@.len() && #[trigger] depths@[j] == d ==> order_indices@[j] < v,
                forall|j1: int, j2: int|
                    0 <= j1 < j2 < order_indices@.len() ==> order_indices@[j1] != order_indices@[j2],
                forall|v2: int|
                    0 <= v2 < n && (dist@[v2] < d || (dist@[v2] == d && v2 < v)) ==> exists|j: int|
                        0 <= j < order_indices@.len() && #[trigger] order_indices@[j] == v2,
                forall|j1: int, j2: int| 0 <= j1 <= j2 < depths@.len() ==> depths@[j1] <= depths@[j2],
                forall|j1: int, j2: int|
                    0 <= j1 < j2 < depths@.len() && depths@[j1] == depths@[j2] ==> order_indices@[j1]
                        < order_indices@[j2],
                forall|j: int|
                    0 <= j < depths@.len() ==> #[trigger] index_at_depth@[j] == count_eq_upto(
                        depths@,
                        depths@[j] as int,
                        j,
                    ),
                nodes_in_level@.len() == d,
                forall|d2: int|
                    0 <= d2 < d ==> #[trigger] nodes_in_level@[d2] == count_eq_upto(
                        depths@,
                        d2,
                        depths@.len() as int,
                    ) && nodes_in_level@[d2] >= 1,
            decreases n - v,
        {
            if dist[v] == d {
                let ghost pre_dep = depths@;
                let ghost pre_ord = order_indices@;
                let ghost pre_len = depths@.len() as int;
                order_indices.push(v);
                depths.push(d);
                index_at_depth.push(cnt);
                proof {
                    assert(order_indices@[pre_len] == v);
                    assert forall|j: int|
                        0 <= j < pre_len implies #[trigger] order_indices@[j] != order_indices@[pre_len] by {
                        assert(depths@[j] == dist@[order_indices@[j] as int]);
                        if order_indices@[j] == v {
                            assert(depths@[j] == d);
                        }
                    }
                    assert forall|j: int|
                        0 <= j < pre_len implies #[trigger] index_at_depth@[j] == count_eq_upto(
                        depths@,
                        depths@[j] as int,
                        j,
                    ) by {
                        lemma_count_prefix(pre_dep, depths@, pre_dep[j] as int, j);
                    }
                    lemma_count_prefix(pre_dep, depths@, d as int, pre_len);
                    assert(index_at_depth@[pre_len] == count_eq_upto(depths@, d as int, pre_len));
                    assert forall|d2: int|
                        0 <= d2 < d implies #[trigger] nodes_in_level@[d2] == count_eq_upto(
                        depths@,
                        d2,
                        depths@.len() as int,
                    ) && nodes_in_level@[d2] >= 1 by {
                        lemma_count_prefix(pre_dep, depths@, d2, pre_len);
                    }
                    assert forall|v2: int|
                        0 <= v2 < n && (dist@[v2] < d || (dist@[v2] == d && v2 <= v)) implies exists|j: int|
                        0 <= j < order_indices@.len() && #[trigger] order_indices@[j] == v2 by {
                        if dist@[v2] == d && v2 == v {
                            assert(order_indices@[pre_len] == v2);
                        } else {
                            let j = choose|j: int| 0 <= j < pre_ord.len() && #[trigger] pre_ord[j] == v2;
                            assert(order_indices@[j] == v2);
                        }
                    }
                }
                cnt = cnt + 1;
            }
            proof {
                lemma_count_lt_bound(dist@, d as int, n as int);
                lemma_count_eq_bound(dist@, d as int, v as int + 1, n as int);
                lemma_count_split(dist@, d as int, n as int);
                lemma_count_lt_bound(dist@, d as int + 1, n as int);
            }
            v = v + 1;
        }
        nodes_in_level.push(cnt);
        proof {
            let dd = d as int;
            lemma_count_split(dist@, dd, n as int);
            let u0 = choose|u: int| 0 <= u < dist@.len() && #[trigger] dist@[u] == maxd as int;
            assert(0 <= u0 < n && dist@[u0] == maxd as int);
            assert(level_occupied(dist@, dd));
            let wit = choose|u: int| 0 <= u < dist@.len() && #[trigger] dist@[u] == dd;
            lemma_count_pos(dist@, dd, n as int, wit);
            assert(nodes_in_level@[dd] >= 1);
        }
        d = d + 1;
    }
    proof {
        lemma_count_lt_all(dist@, d as int, n as int);
        assert(order_indices@.len() == n);
        let vm = choose|u: int| 0 <= u < dist@.len() && #[trigger] dist@[u] == maxd as int;
        assert(dist@[vm] == maxd as int);
        let jm = choose|j: int|
            0 <= j < order_indices@.len() && #[trigger] order_indices@[j] == vm;
        assert(order_indices@[jm] == vm);
        assert(depths@[jm] == maxd);
        assert(depths@[n - 1] >= depths@[jm]);
        assert(depths@[n - 1] < d);
        assert(nodes_in_level@.len() == depths@[n - 1] + 1);
    }
    let so = SortOrder { order_indices, depths, index_at_depth, nodes_in_level };
    proof {
        assert forall|v2: int| 0 <= v2 < dist@.len() implies #[trigger] so.has_position(v2) by {
            assert(dist@[v2] < d);
            let j = choose|j: int|
                0 <= j < so.order_indices@.len() && #[trigger] so.order_indices@[j] == v2;
            assert(so.order_indices@[j] == v2);
        }
    }
    so
}

/// `j` is the largest index whose node carries `key` as its identifier.
pub open spec fn is_key_index(nodes: Seq<Node>, key: Seq<char>, j: int) -> bool {
    &&& 0 <= j < nodes.len()
    &&& nodes[j].id@ == key
    &&& forall|j2: int| j < j2 < nodes.len() ==> (#[trigger] nodes[j2].id@) != key
}

/// Some node carries `key` as its identifier.
pub open spec fn has_key(nodes: Seq<Node>, key: Seq<char>) -> bool {
    exists|j: int| 0 <= j < nodes.len() && (#[trigger] nodes[j].id@) == key
}

/// The index `key` resolves to: the largest matching one.
pub open spec fn key_index(nodes: Seq<Node>, key: Seq<char>) -> int {
    choose|j: int| is_key_index(nodes, key, j)
}

proof fn lemma_key_index_exists(nodes: Seq<Node>, key: Seq<char>)
    requires
        has_key(nodes, key),
    ensures
        is_key_index(nodes, key, key_index(nodes, key)),
    decreases nodes.len(),
{
    let last = nodes.len() - 1;
    if nodes[last].id@ == key {
        assert(is_key_index(nodes, key, last));
    } else {
        assert(has_key(nodes.drop_last(), key)) by {
            let j0 = choose|j: int| 0 <= j < nodes.len() && (#[trigger] nodes[j].id@) == key;
            assert(nodes.drop_last()[j0] == nodes[j0]);
        }
        lemma_key_index_exists(nodes.drop_last(), key);
        let j = key_index(nodes.drop_last(), key);
        assert(nodes.drop_last()[j] == nodes[j]);
        assert(forall|j2: int| j < j2 < nodes.len() - 1 ==> nodes.drop_last()[j2] == nodes[j2]);
        assert(is_key_index(nodes, key, j));
    }
    let w = choose|j: int| is_key_index(nodes, key, j);
    assert(is_key_index(nodes, key, w));
}

proof fn lemma_key_index_unique(nodes: Seq<Node>, key: Seq<char>, j1: int, j2: int)
    requires
        is_key_index(nodes, key, j1),
        is_key_index(nodes, key, j2),
    ensures
        j1 == j2,
{
}

/// Finds the largest index whose node's identifier equals `key`.
fn find_key(nodes: &Vec<Node>, key: &String) -> (r: Option<usize>)
    ensures
        match r {
            Some(j) => is_key_index(nodes@, key@, j as int),
            None => !has_key(nodes@, key@),
        },
{
    let mut j: usize = nodes.len();
    loop
        invariant
            j <= nodes@.len(),
            forall|j2: int| j <= j2 < nodes@.len() ==> (#[trigger] nodes@[j2].id@) != key@,
        decreases j,
    {
        if j == 0 {
            return None;
        }
        j = j - 1;
        if nodes[j].id == *key {
            return Some(j);
        }
    }
}

/// The connection a description entry resolves to.
pub open spec fn conn_pair(nodes: Seq<Node>, c: (String, String)) -> Connection {
    Connection {
        from_index: key_index(nodes, c.0@) as usize,
        to_index: key_index(nodes, c.1@) as usize,
    }
}

/// Every connection's two keys occur among the nodes.
pub open spec fn resolves(nodes: Seq<Node>, conns: Seq<(String, String)>) -> bool {
    forall|i: int|
        0 <= i < conns.len() ==> has_key(nodes, (#[trigger] conns[i]).0@) && has_key(nodes, conns[i].1@)
}

/// The connections among the first `upto` description entries whose source
/// resolves to `v`, in description order.
pub open spec fn from_conns_upto(nodes: Seq<Node>, conns: Seq<(String, String)>, v: int, upto: int) -> Seq<
    Connection,
>
    decreases upto,
{
    if upto <= 0 {
        Seq::empty()
    } else {
        let rest = from_conns_upto(nodes, conns, v, upto - 1);
        if conn_pair(nodes, conns[upto - 1]).from_index == v {
            rest.push(conn_pair(nodes, conns[upto - 1]))
        } else {
            rest
        }
    }
}

/// The connections among the first `upto` description entries whose
/// destination resolves to `v`, in description order.
pub open spec fn to_conns_upto(nodes: Seq<Node>, conns: Seq<(String, String)>, v: int, upto: int) -> Seq<
    Connection,
>
    decreases upto,
{
    if upto <= 0 {
        Seq::empty()
    } else {
        let rest = to_conns_upto(nodes, conns, v, upto - 1);
        if conn_pair(nodes, conns[upto - 1]).to_index == v {
            rest.push(conn_pair(nodes, conns[upto - 1]))
        } else {
            rest
        }
    }
}

/// One of the first `upto` description entries resolves to a connection from
/// `u` to `w`.
pub open spec fn pair_in(nodes: Seq<Node>, conns: Seq<(String, String)>, upto: int, u: int, w: int) -> bool {
    exists|i: int|
        0 <= i < upto && (#[trigger] conn_pair(nodes, conns[i])).from_index == u && conn_pair(
            nodes,
            conns[i],
        ).to_index == w
}

/// The keys of every description entry before `i` resolve, and one key of
/// entry `i` does not.
pub open spec fn first_unresolved(nodes: Seq<Node>, conns: Seq<(String, String)>, i: int) -> bool {
    &&& 0 <= i < conns.len()
    &&& !(has_key(nodes, conns[i].0@) && has_key(nodes, conns[i].1@))
    &&& forall|i2: int|
        0 <= i2 < i ==> has_key(nodes, (#[trigger] conns[i2]).0@) && has_key(nodes, conns[i2].1@)
}

proof fn lemma_from_conns_shape(nodes: Seq<Node>, conns: Seq<(String, String)>, v: int, upto: int)
    requires
        0 <= upto <= conns.len(),
        forall|i: int|
            0 <= i < upto ==> has_key(nodes, (#[trigger] conns[i]).0@) && has_key(nodes, conns[i].1@),
    ensures
        forall|k: int|
            0 <= k < from_conns_upto(nodes, conns, v, upto).len() ==> (#[trigger] from_conns_upto(
                nodes,
                conns,
                v,
                upto,
            )[k]).from_index == v && 0 <= from_conns_upto(nodes, conns, v, upto)[k].to_index
                < nodes.len(),
        forall|w: int|
            #![trigger seq_has_to(from_conns_upto(nodes, conns, v, upto), w)]
            #![trigger pair_in(nodes, conns, upto, v, w)]
            seq_has_to(from_conns_upto(nodes, conns, v, upto), w) <==> pair_in(nodes, conns, upto, v, w),
    decreases upto,
{
    if upto > 0 {
        lemma_from_conns_shape(nodes, conns, v, upto - 1);
        let prev = from_conns_upto(nodes, conns, v, upto - 1);
        let cur = from_conns_upto(nodes, conns, v, upto);
        let c = conn_pair(nodes, conns[upto - 1]);
        lemma_key_index_exists(nodes, conns[upto - 1].0@);
        lemma_key_index_exists(nodes, conns[upto - 1].1@);
        assert forall|w: int| seq_has_to(cur, w) implies pair_in(nodes, conns, upto, v, w) by {
            let k = choose|k: int| 0 <= k < cur.len() && (#[trigger] cur[k]).to_index == w;
            if c.from_index == v && k == cur.len() - 1 {
                assert(conn_pair(nodes, conns[upto - 1]).from_index == v);
            } else {
                assert(seq_has_to(prev, w));
                assert(pair_in(nodes, conns, upto - 1, v, w));
                let i = choose|i: int|
                    0 <= i < upto - 1 && (#[trigger] conn_pair(nodes, conns[i])).from_index == v
                        && conn_pair(nodes, conns[i]).to_index == w;
                assert(conn_pair(nodes, conns[i]).from_index == v);
            }
        }
        assert forall|w: int| pair_in(nodes, conns, upto, v, w) implies seq_has_to(cur, w) by {
            let i = choose|i: int|
                0 <= i < upto && (#[trigger] conn_pair(nodes, conns[i])).from_index == v && conn_pair(
                    nodes,
                    conns[i],
                ).to_index == w;
            if i == upto - 1 {
                assert(cur[cur.len() - 1].to_index == w);
            } else {
                assert(pair_in(nodes, conns, upto - 1, v, w));
                assert(seq_has_to(prev, w));
                let k = choose|k: int| 0 <= k < prev.len() && (#[trigger] prev[k]).to_index == w;
                assert(cur[k].to_index == w);
            }
        }
    }
}

proof fn lemma_to_conns_shape(nodes: Seq<Node>, conns: Seq<(String, String)>, v: int, upto: int)
    requires
        0 <= upto <= conns.len(),
        forall|i: int|
            0 <= i < upto ==> has_key(nodes, (#[trigger] conns[i]).0@) && has_key(nodes, conns[i].1@),
    ensures
        forall|k: int|
            0 <= k < to_conns_upto(nodes, conns, v, upto).len() ==> (#[trigger] to_conns_upto(
                nodes,
                conns,
                v,
                upto,
            )[k]).to_index == v && 0 <= to_conns_upto(nodes, conns, v, upto)[k].from_index
                < nodes.len(),
        forall|u: int|
            #![trigger seq_has_from(to_conns_upto(nodes, conns, v, upto), u)]
            #![trigger pair_in(nodes, conns, upto, u, v)]
            seq_has_from(to_conns_upto(nodes, conns, v, upto), u) <==> pair_in(nodes, conns, upto, u, v),
    decreases upto,
{
    if upto > 0 {
        lemma_to_conns_shape(nodes, conns, v, upto - 1);
        let prev = to_conns_upto(nodes, conns, v, upto - 1);
        let cur = to_conns_upto(nodes, conns, v, upto);
        let c = conn_pair(nodes, conns[upto - 1]);
        lemma_key_index_exists(nodes, conns[upto - 1].0@);
        lemma_key_index_exists(nodes, conns[upto - 1].1@);
        assert forall|u: int| seq_has_from(cur, u) implies pair_in(nodes, conns, upto, u, v) by {
            let k = choose|k: int| 0 <= k < cur.len() && (#[trigger] cur[k]).from_index == u;
            if c.to_index == v && k == cur.len() - 1 {
                assert(conn_pair(nodes, conns[upto - 1]).from_index == u);
            } else {
                assert(seq_has_from(prev, u));
                assert(pair_in(nodes, conns, upto - 1, u, v));
                let i = choose|i: int|
                    0 <= i < upto - 1 && (#[trigger] conn_pair(nodes, conns[i])).from_index == u
                        && conn_pair(nodes, conns[i]).to_index == v;
                assert(conn_pair(nodes, conns[i]).from_index == u);
            }
        }
        assert forall|u: int| pair_in(nodes, conns, upto, u, v) implies seq_has_from(cur, u) by {
            let i = choose|i: int|
                0 <= i < upto && (#[trigger] conn_pair(nodes, conns[i])).from_index == u && conn_pair(
                    nodes,
                    conns[i],
                ).to_index == v;
            if i == upto - 1 {
                assert(cur[cur.len() - 1].from_index == u);
            } else {
                assert(pair_in(nodes, conns, upto - 1, u, v));
                assert(seq_has_from(prev, u));
                let k = choose|k: int| 0 <= k < prev.len() && (#[trigger] prev[k]).from_index == u;
                assert(cur[k].from_index == u);
            }
        }
    }
}

proof fn lemma_depth_descend(g: Graph, d: Seq<int>, v: int, k: int)
    requires
        g.wf(),
        g.depth_assignment(d),
        0 <= v < g.node_count(),
        0 <= k <= d[v],
    ensures
        exists|u: int| 0 <= u < g.node_count() && #[trigger] d[u] == k,
    decreases d[v] - k,
{
    if d[v] == k {
        assert(0 <= v < g.node_count() && d[v] == k);
    } else {
        assert(d[v] >= 1);
        assert(!g.is_sink(v));
        let w = choose|w: int| 0 <= w < g.node_count() && g.has_edge(v, w) && d[v] == d[w] + 1;
        lemma_depth_descend(g, d, w, k);
    }
}

/// Some node below `lo` in depth feeds `v`, bounding a pending or final
/// depth `dd` of `v` from above.
pub open spec fn bfs_parent_bound(g: Graph, dist: Seq<usize>, v: int, dd: int) -> bool {
    exists|w: int|
        0 <= w < g.node_count() && g.has_edge(v, w) && #[trigger] finalized(dist, w) && dd <= dist[w]
            + 1
}

/// A queue entry is a seeded sink at distance zero, or one past a node it
/// feeds whose depth is already set.
pub open spec fn bfs_entry_ok(g: Graph, dist: Seq<usize>, e: (usize, usize)) -> bool {
    (e.1 == 0 && g.is_sink(e.0 as int)) || (1 <= e.1 && bfs_parent_bound(g, dist, e.0 as int, e.1 as int))
}

/// The set depths: bounded by the node count, zero exactly on sinks, and
/// every set non-sink depth is at most one past a set depth it feeds.
#[verifier::opaque]
pub open spec fn bfs_dist_inv(g: Graph, dist: Seq<usize>) -> bool {
    let n = g.node_count();
    &&& dist.len() == n
    &&& forall|v: int|
        0 <= v < n && #[trigger] finalized(dist, v) ==> dist[v] < n && (g.is_sink(v) ==> dist[v]
            == 0) && (!g.is_sink(v) ==> 1 <= dist[v] && bfs_parent_bound(g, dist, v, dist[v] as int))
}

/// The queue: entries in range, distances sorted, within one of the front,
/// at least every set depth, and each with a sound provenance.
#[verifier::opaque]
pub open spec fn bfs_queue_inv(g: Graph, dist: Seq<usize>, q: Seq<(usize, usize)>) -> bool {
    let n = g.node_count();
    &&& forall|k: int| 0 <= k < q.len() ==> 0 <= (#[trigger] q[k]).0 < n && q[k].1 <= n
    &&& forall|k1: int, k2: int| 0 <= k1 <= k2 < q.len() ==> (#[trigger] q[k1]).1 <= (#[trigger] q[k2]).1
    &&& forall|k: int| 0 <= k < q.len() ==> (#[trigger] q[k]).1 <= q[0].1 + 1
    &&& forall|v: int, k: int|
        #![trigger finalized(dist, v), q[k]]
        0 <= v < n && finalized(dist, v) && 0 <= k < q.len() ==> dist[v] <= q[k].1
    &&& forall|k: int| 0 <= k < q.len() ==> bfs_entry_ok(g, dist, #[trigger] q[k])
}

/// An entry for `u` with distance at least `lo` is pending.
pub open spec fn bfs_pending(q: Seq<(usize, usize)>, u: int, lo: int) -> bool {
    exists|k: int| 0 <= k < q.len() && (#[trigger] q[k]).0 == u && q[k].1 >= lo
}

/// Every entry names a node and a distance within the node count.
pub open spec fn bfs_entries_wf(g: Graph, q: Seq<(usize, usize)>) -> bool {
    forall|k: int| 0 <= k < q.len() ==> 0 <= (#[trigger] q[k]).0 < g.node_count() && q[k].1 <= g.node_count()
}

/// Every producer of a node with a set depth, other than producers of `ex`,
/// is itself set high enough or pending high enough.
#[verifier::opaque]
pub open spec fn bfs_closure_except(g: Graph, dist: Seq<usize>, q: Seq<(usize, usize)>, ex: int) -> bool {
    let n = g.node_count();
    forall|w: int, u: int|
        0 <= w < n && 0 <= u < n && w != ex && #[trigger] finalized(dist, w) && #[trigger] g.has_edge(
            u,
            w,
        ) ==> (finalized(dist, u) && dist[u] >= dist[w] + 1) || bfs_pending(q, u, dist[w] + 1)
}

/// As `bfs_closure_except`, with no exception.
#[verifier::opaque]
pub open spec fn bfs_closure(g: Graph, dist: Seq<usize>, q: Seq<(usize, usize)>) -> bool {
    let n = g.node_count();
    forall|w: int, u: int|
        0 <= w < n && 0 <= u < n && #[trigger] finalized(dist, w) && #[trigger] g.has_edge(u, w) ==> (
        finalized(dist, u) && dist[u] >= dist[w] + 1) || bfs_pending(q, u, dist[w] + 1)
}

/// Every sink has its depth set or an entry still pending.
#[verifier::opaque]
pub open spec fn bfs_sinks_covered(g: Graph, dist: Seq<usize>, q: Seq<(usize, usize)>) -> bool {
    forall|v: int|
        0 <= v < g.node_count() && #[trigger] g.is_sink(v) ==> finalized(dist, v) || bfs_pending(
            q,
            v,
            0,
        )
}

/// Entries and set depths never pass the depths of a valid assignment.
#[verifier::opaque]
pub open spec fn bfs_bounded(g: Graph, gd: Seq<int>, dist: Seq<usize>, q: Seq<(usize, usize)>) -> bool {
    &&& forall|k: int| 0 <= k < q.len() ==> (#[trigger] q[k]).1 <= gd[q[k].0 as int]
    &&& forall|v: int|
        0 <= v < g.node_count() && #[trigger] finalized(dist, v) ==> dist[v] <= gd[v]
}

proof fn lemma_parent_bound_mono(g: Graph, dist0: Seq<usize>, dist1: Seq<usize>, v: int, dd: int)
    requires
        bfs_parent_bound(g, dist0, v, dd),
        forall|w: int|
            0 <= w < g.node_count() && #[trigger] finalized(dist0, w) ==> finalized(dist1, w)
                && dist0[w] <= dist1[w],
    ensures
        bfs_parent_bound(g, dist1, v, dd),
{
    let w = choose|w: int|
        0 <= w < g.node_count() && g.has_edge(v, w) && #[trigger] finalized(dist0, w) && dd <= dist0[w]
            + 1;
    assert(finalized(dist1, w) && dd <= dist1[w] + 1);
}

proof fn lemma_bfs_skip(g: Graph, dist: Seq<usize>, q0: Seq<(usize, usize)>)
    requires
        g.wf(),
        bfs_dist_inv(g, dist),
        bfs_queue_inv(g, dist, q0),
        bfs_closure(g, dist, q0),
        bfs_sinks_covered(g, dist, q0),
        q0.len() > 0,
        finalized(dist, q0[0].0 as int),
        dist[q0[0].0 as int] == q0[0].1,
    ensures
        bfs_queue_inv(g, dist, q0.drop_first()),
        bfs_closure(g, dist, q0.drop_first()),
        bfs_sinks_covered(g, dist, q0.drop_first()),
{
    reveal(bfs_dist_inv);
    reveal(bfs_queue_inv);
    reveal(bfs_closure);
    reveal(bfs_closure_except);
    reveal(bfs_sinks_covered);
    reveal(bfs_bounded);
    let q = q0.drop_first();
    let n = g.node_count();
    let cur = q0[0].0 as int;
    assert(forall|k: int| 0 <= k < q.len() ==> #[trigger] q[k] == q0[k + 1]);
    assert forall|w: int, u: int|
        0 <= w < n && 0 <= u < n && #[trigger] finalized(dist, w) && #[trigger] g.has_edge(u, w)
            implies (finalized(dist, u) && dist[u] >= dist[w] + 1) || bfs_pending(q, u, dist[w] + 1) by {
        if !(finalized(dist, u) && dist[u] >= dist[w] + 1) {
            let kk = choose|k: int| 0 <= k < q0.len() && (#[trigger] q0[k]).0 == u && q0[k].1 >= dist[w] + 1;
            if kk == 0 {
                assert(u == cur);
                assert(dist[u] >= dist[w] + 1);
                assert(false);
            } else {
                assert(q[kk - 1] == q0[kk]);
                assert(bfs_pending(q, u, dist[w] + 1));
            }
        }
    }
    assert forall|v: int|
        0 <= v < n && #[trigger] g.is_sink(v) implies finalized(dist, v) || bfs_pending(q, v, 0) by {
        if !finalized(dist, v) {
            let kk = choose|k: int| 0 <= k < q0.len() && (#[trigger] q0[k]).0 == v && q0[k].1 >= 0;
            if kk == 0 {
                assert(v == cur);
                assert(false);
            } else {
                assert(q[kk - 1] == q0[kk]);
                assert(bfs_pending(q, v, 0));
            }
        }
    }
}

#[verifier::rlimit(100)]
#[verifier::spinoff_prover]
proof fn lemma_bfs_assign_dist(g: Graph, dist0: Seq<usize>, q0: Seq<(usize, usize)>, cur: int, cd: usize)
    requires
        g.wf(),
        g.node_count() <= usize::MAX,
        bfs_dist_inv(g, dist0),
        bfs_queue_inv(g, dist0, q0),
        q0.len() > 0,
        q0[0].0 == cur,
        q0[0].1 == cd,
        cd < g.node_count(),
        dist0[cur] != cd,
    ensures
        bfs_dist_inv(g, dist0.update(cur, cd)),
        bfs_weight(g.node_count(), cd) < bfs_weight(g.node_count(), dist0[cur]),
        finalized(dist0.update(cur, cd), cur),
        forall|v: int|
            0 <= v < g.node_count() && #[trigger] finalized(dist0.update(cur, cd), v)
                ==> dist0.update(cur, cd)[v] <= cd,
        forall|w: int|
            0 <= w < g.node_count() && #[trigger] finalized(dist0, w) ==> finalized(
                dist0.update(cur, cd),
                w,
            ) && dist0[w] <= dist0.update(cur, cd)[w],
{
    reveal(bfs_dist_inv);
    reveal(bfs_queue_inv);
    reveal(bfs_closure);
    reveal(bfs_closure_except);
    reveal(bfs_sinks_covered);
    reveal(bfs_bounded);
    let n = g.node_count();
    let dist = dist0.update(cur, cd);
    // the old value was unset or strictly below cd
    if finalized(dist0, cur) {
        assert(dist0[cur] <= q0[0].1);
    }
    assert forall|w: int|
        0 <= w < n && #[trigger] finalized(dist0, w) implies finalized(dist, w) && dist0[w] <= dist[w] by {
        if w == cur {
            assert(dist0[cur] <= q0[0].1);
            assert(cd < usize::MAX);
            assert(finalized(dist, cur));
        } else {
            assert(dist[w] == dist0[w]);
        }
    }
    // the new depths keep their shape
    assert forall|v: int|
        0 <= v < n && #[trigger] finalized(dist, v) implies dist[v] < n && (g.is_sink(v) ==> dist[v]
        == 0) && (!g.is_sink(v) ==> 1 <= dist[v] && bfs_parent_bound(g, dist, v, dist[v] as int)) by {
        if v == cur {
            assert(bfs_entry_ok(g, dist0, q0[0]));
            if q0[0].1 == 0 && g.is_sink(cur) {
                assert(dist[cur] == 0);
            } else {
                assert(bfs_parent_bound(g, dist0, cur, cd as int));
                let w = choose|w: int|
                    0 <= w < n && g.has_edge(cur, w) && #[trigger] finalized(dist0, w) && cd as int
                        <= dist0[w] + 1;
                assert(g.from_edge(cur, w));
                assert(!g.is_sink(cur));
                assert(finalized(dist, w) && dist[v] <= dist[w] + 1);
            }
        } else {
            assert(finalized(dist0, v));
            if !g.is_sink(v) {
                lemma_parent_bound_mono(g, dist0, dist, v, dist0[v] as int);
            }
        }
    }
    assert forall|v: int| 0 <= v < n && #[trigger] finalized(dist, v) implies dist[v] <= cd by {
        if v != cur {
            assert(finalized(dist0, v));
            assert(dist0[v] <= q0[0].1);
        }
    }
}

#[verifier::rlimit(100)]
#[verifier::spinoff_prover]
proof fn lemma_bfs_assign_queue(g: Graph, dist0: Seq<usize>, q0: Seq<(usize, usize)>, cur: int, cd: usize)
    requires
        g.wf(),
        g.node_count() <= usize::MAX,
        bfs_dist_inv(g, dist0),
        bfs_queue_inv(g, dist0, q0),
        bfs_closure(g, dist0, q0),
        bfs_sinks_covered(g, dist0, q0),
        q0.len() > 0,
        q0[0].0 == cur,
        q0[0].1 == cd,
        cd < g.node_count(),
        dist0[cur] != cd,
    ensures
        bfs_queue_inv(g, dist0.update(cur, cd), q0.drop_first()),
        bfs_sinks_covered(g, dist0.update(cur, cd), q0.drop_first()),
        forall|k: int|
            0 <= k < q0.drop_first().len() ==> cd <= (#[trigger] q0.drop_first()[k]).1 <= cd + 1,
{
    reveal(bfs_dist_inv);
    reveal(bfs_queue_inv);
    reveal(bfs_closure);
    reveal(bfs_closure_except);
    reveal(bfs_sinks_covered);
    reveal(bfs_bounded);
    let n = g.node_count();
    let dist = dist0.update(cur, cd);
    let q = q0.drop_first();
    lemma_bfs_assign_dist(g, dist0, q0, cur, cd);
    assert(forall|k: int| 0 <= k < q.len() ==> #[trigger] q[k] == q0[k + 1]);
    // the remaining entries stay sound and bounded
    assert forall|k: int| 0 <= k < q.len() implies bfs_entry_ok(g, dist, #[trigger] q[k]) by {
        assert(bfs_entry_ok(g, dist0, q0[k + 1]));
        if !(q[k].1 == 0 && g.is_sink(q[k].0 as int)) {
            lemma_parent_bound_mono(g, dist0, dist, q[k].0 as int, q[k].1 as int);
        }
    }
    assert forall|v: int, k: int|
        #![trigger finalized(dist, v), q[k]]
        0 <= v < n && finalized(dist, v) && 0 <= k < q.len() implies dist[v] <= q[k].1 by {
        assert(q[k] == q0[k + 1]);
        if v == cur {
            assert(q0[k + 1].1 >= q0[0].1);
        } else {
            assert(finalized(dist0, v));
        }
    }
    assert forall|v: int|
        0 <= v < n && #[trigger] g.is_sink(v) implies finalized(dist, v) || bfs_pending(q, v, 0) by {
        if !finalized(dist, v) {
            assert(v != cur);
            assert(!finalized(dist0, v));
            let kk = choose|k: int| 0 <= k < q0.len() && (#[trigger] q0[k]).0 == v && q0[k].1 >= 0;
            if kk == 0 {
                assert(v == cur);
                assert(false);
            } else {
                assert(q[kk - 1] == q0[kk]);
                assert(bfs_pending(q, v, 0));
            }
        }
    }
    // the remaining distances sit between cd and cd + 1
    assert forall|k: int| 0 <= k < q.len() implies cd <= (#[trigger] q[k]).1 <= cd + 1 by {
        assert(q[k] == q0[k + 1]);
        assert(q0[0].1 <= q0[k + 1].1);
        assert(q0[k + 1].1 <= q0[0].1 + 1);
    }
}

#[verifier::rlimit(100)]
#[verifier::spinoff_prover]
proof fn lemma_bfs_assign_closure(g: Graph, dist0: Seq<usize>, q0: Seq<(usize, usize)>, cur: int, cd: usize)
    requires
        g.wf(),
        g.node_count() <= usize::MAX,
        bfs_dist_inv(g, dist0),
        bfs_queue_inv(g, dist0, q0),
        bfs_closure(g, dist0, q0),
        q0.len() > 0,
        q0[0].0 == cur,
        q0[0].1 == cd,
        cd < g.node_count(),
        dist0[cur] != cd,
    ensures
        bfs_closure_except(g, dist0.update(cur, cd), q0.drop_first(), cur),
{
    reveal(bfs_dist_inv);
    reveal(bfs_queue_inv);
    reveal(bfs_closure);
    reveal(bfs_closure_except);
    let n = g.node_count();
    let dist = dist0.update(cur, cd);
    let q = q0.drop_first();
    assert(forall|k: int| 0 <= k < q.len() ==> #[trigger] q[k] == q0[k + 1]);
    if finalized(dist0, cur) {
        assert(dist0[cur] <= q0[0].1);
    }
    assert forall|w: int, u: int|
        0 <= w < n && 0 <= u < n && w != cur && #[trigger] finalized(dist, w) && #[trigger] g.has_edge(
            u,
            w,
        ) implies (finalized(dist, u) && dist[u] >= dist[w] + 1) || bfs_pending(q, u, dist[w] + 1) by {
        assert(finalized(dist0, w));
        assert(dist[w] == dist0[w]);
        if !(finalized(dist0, u) && dist0[u] >= dist0[w] + 1) {
            let kk = choose|k: int|
                0 <= k < q0.len() && (#[trigger] q0[k]).0 == u && q0[k].1 >= dist0[w] + 1;
            if kk == 0 {
                assert(u == cur);
                assert(dist[u] == cd >= dist0[w] + 1);
            } else {
                assert(q[kk - 1] == q0[kk]);
                assert(bfs_pending(q, u, dist[w] + 1));
            }
        } else {
            if u == cur {
                assert(dist0[cur] <= cd);
                assert(dist[u] >= dist[w] + 1);
            }
        }
    }
}

proof fn lemma_bfs_bounded_step(
    g: Graph,
    gd: Seq<int>,
    dist0: Seq<usize>,
    q0: Seq<(usize, usize)>,
    cur: int,
    cd: usize,
)
    requires
        bfs_bounded(g, gd, dist0, q0),
        q0.len() > 0,
        q0[0].0 == cur,
        q0[0].1 == cd,
        0 <= cur < dist0.len(),
        dist0.len() == g.node_count(),
    ensures
        bfs_bounded(g, gd, dist0.update(cur, cd), q0.drop_first()),
        bfs_bounded(g, gd, dist0, q0.drop_first()),
        cd <= gd[cur],
{
    reveal(bfs_bounded);
    let q = q0.drop_first();
    let dist = dist0.update(cur, cd);
    assert(forall|k: int| 0 <= k < q.len() ==> #[trigger] q[k] == q0[k + 1]);
    assert(q0[0].1 <= gd[q0[0].0 as int]);
    assert(cd <= gd[cur]);
    assert forall|v: int|
        0 <= v < g.node_count() && #[trigger] finalized(dist, v) implies dist[v] <= gd[v] by {
        if v != cur {
            assert(dist[v] == dist0[v]);
            assert(finalized(dist0, v));
        } else {
            assert(dist[v] == cd);
        }
    }
}

/// A graph where no node was seeded has no sinks and cannot be sorted.
proof fn lemma_empty_graph(g: Graph, q: Seq<(usize, usize)>)
    requires
        g.wf(),
        q.len() == 0,
        forall|v: int| 0 <= v < g.node_count() && #[trigger] g.is_sink(v) ==> bfs_pending(q, v, 0),
    ensures
        forall|v: int| 0 <= v < g.node_count() ==> !(#[trigger] g.is_sink(v)),
        !g.sortable(),
{
    assert forall|v: int| 0 <= v < g.node_count() implies !(#[trigger] g.is_sink(v)) by {
        if g.is_sink(v) {
            assert(bfs_pending(q, v, 0));
            let kk = choose|k: int| 0 <= k < q.len() && (#[trigger] q[k]).0 == v && q[k].1 >= 0;
            assert(false);
        }
    }
    if g.node_count() > 0 && (exists|d: Seq<int>| g.depth_assignment(d)) {
        let d = choose|d: Seq<int>| g.depth_assignment(d);
        lemma_assignment_has_sink(g, d);
        let v0 = choose|v: int| 0 <= v < g.node_count() && #[trigger] g.is_sink(v);
        assert(false);
    }
}

proof fn lemma_bfs_enqueue_done(
    g: Graph,
    dist: Seq<usize>,
    q: Seq<(usize, usize)>,
    cur: int,
    nd: int,
)
    requires
        g.wf(),
        0 <= cur < g.node_count(),
        bfs_dist_inv(g, dist),
        finalized(dist, cur),
        dist[cur] + 1 == nd,
        bfs_closure_except(g, dist, q, cur),
        forall|j2: int|
            0 <= j2 < g.to_connections@[cur]@.len() ==> bfs_pending(
                q,
                (#[trigger] g.to_connections@[cur]@[j2]).from_index as int,
                nd,
            ),
    ensures
        bfs_closure(g, dist, q),
{
    reveal(bfs_dist_inv);
    reveal(bfs_queue_inv);
    reveal(bfs_closure);
    reveal(bfs_closure_except);
    reveal(bfs_sinks_covered);
    reveal(bfs_bounded);
    let n = g.node_count();
    assert forall|w: int, u: int|
        0 <= w < n && 0 <= u < n && #[trigger] finalized(dist, w) && #[trigger] g.has_edge(u, w)
            implies (finalized(dist, u) && dist[u] >= dist[w] + 1) || bfs_pending(q, u, dist[w] + 1) by {
        if w == cur {
            let j2 = choose|k: int|
                0 <= k < g.to_connections@[cur]@.len() && (#[trigger] g.to_connections@[cur]@[k]).from_index
                    == u;
            assert(bfs_pending(q, g.to_connections@[cur]@[j2].from_index as int, nd));
        }
    }
}

proof fn lemma_bfs_init(g: Graph, dist: Seq<usize>, q: Seq<(usize, usize)>)
    requires
        g.wf(),
        dist.len() == g.node_count(),
        forall|v: int| 0 <= v < dist.len() ==> #[trigger] dist[v] == usize::MAX,
        forall|k: int|
            0 <= k < q.len() ==> {
                let e = #[trigger] q[k];
                e.1 == 0 && 0 <= e.0 < g.node_count() && g.is_sink(e.0 as int)
            },
        forall|v: int| 0 <= v < g.node_count() && #[trigger] g.is_sink(v) ==> bfs_pending(q, v, 0),
    ensures
        bfs_entries_wf(g, q),
        bfs_dist_inv(g, dist),
        bfs_queue_inv(g, dist, q),
        bfs_closure(g, dist, q),
        bfs_sinks_covered(g, dist, q),
{
    reveal(bfs_dist_inv);
    reveal(bfs_queue_inv);
    reveal(bfs_closure);
    reveal(bfs_closure_except);
    reveal(bfs_sinks_covered);
    reveal(bfs_bounded);
    assert forall|v: int| 0 <= v < g.node_count() implies !finalized(dist, v) by {
        assert(dist[v] == usize::MAX);
    }
}

proof fn lemma_bfs_init_bounded(g: Graph, gd: Seq<int>, dist: Seq<usize>, q: Seq<(usize, usize)>)
    requires
        g.wf(),
        g.depth_assignment(gd),
        dist.len() == g.node_count(),
        forall|v: int| 0 <= v < dist.len() ==> #[trigger] dist[v] == usize::MAX,
        forall|k: int|
            0 <= k < q.len() ==> {
                let e = #[trigger] q[k];
                e.1 == 0 && 0 <= e.0 < g.node_count() && g.is_sink(e.0 as int)
            },
    ensures
        bfs_bounded(g, gd, dist, q),
{
    reveal(bfs_dist_inv);
    reveal(bfs_queue_inv);
    reveal(bfs_closure);
    reveal(bfs_closure_except);
    reveal(bfs_sinks_covered);
    reveal(bfs_bounded);
    assert forall|v: int| 0 <= v < g.node_count() implies !finalized(dist, v) by {
        assert(dist[v] == usize::MAX);
    }
    assert forall|k: int| 0 <= k < q.len() implies (#[trigger] q[k]).1 <= gd[q[k].0 as int] by {
        assert(0 <= q[k].0 < g.node_count());
        assert(gd[q[k].0 as int] >= 0);
    }
}

proof fn lemma_bfs_drained(g: Graph, dist: Seq<usize>, q: Seq<(usize, usize)>)
    requires
        g.wf(),
        bfs_closure(g, dist, q),
        bfs_sinks_covered(g, dist, q),
        q.len() == 0,
    ensures
        forall|w: int, u: int|
            0 <= w < g.node_count() && 0 <= u < g.node_count() && #[trigger] finalized(dist, w)
                && #[trigger] g.has_edge(u, w) ==> finalized(dist, u) && dist[u] >= dist[w] + 1,
        forall|v: int| 0 <= v < g.node_count() && #[trigger] g.is_sink(v) ==> finalized(dist, v),
{
    reveal(bfs_dist_inv);
    reveal(bfs_queue_inv);
    reveal(bfs_closure);
    reveal(bfs_closure_except);
    reveal(bfs_sinks_covered);
    reveal(bfs_bounded);
    let n = g.node_count();
    assert forall|w: int, u: int|
        0 <= w < n && 0 <= u < n && #[trigger] finalized(dist, w) && #[trigger] g.has_edge(u, w)
            implies finalized(dist, u) && dist[u] >= dist[w] + 1 by {
        if !(finalized(dist, u) && dist[u] >= dist[w] + 1) {
            assert(bfs_pending(q, u, dist[w] + 1));
            let kk = choose|k: int|
                0 <= k < q.len() && (#[trigger] q[k]).0 == u && q[k].1 >= dist[w] + 1;
            assert(false);
        }
    }
    assert forall|v: int| 0 <= v < n && #[trigger] g.is_sink(v) implies finalized(dist, v) by {
        if !finalized(dist, v) {
            assert(bfs_pending(q, v, 0));
            let kk = choose|k: int| 0 <= k < q.len() && (#[trigger] q[k]).0 == v && q[k].1 >= 0;
            assert(false);
        }
    }
}

impl Graph {
    /// Builds the sort order once every node's depth is set and the walk's
    /// closure facts hold.
    #[verifier::rlimit(100)]
    #[verifier::spinoff_prover]
    fn build_order(&self, dist: &Vec<usize>) -> (so: SortOrder)
        requires
            self.wf(),
            dist@.len() == self.nodes@.len(),
            dist@.len() >= 1,
            bfs_dist_inv(*self, dist@),
            forall|v: int| 0 <= v < dist@.len() ==> #[trigger] finalized(dist@, v),
            forall|w: int, u: int|
                0 <= w < self.node_count() && 0 <= u < self.node_count() && #[trigger] finalized(
                    dist@,
                    w,
                ) && #[trigger] self.has_edge(u, w) ==> finalized(dist@, u) && dist@[u] >= dist@[w]
                    + 1,
        ensures
            so.valid_for(*self),
            self.sortable(),
    {
        proof {
            reveal(bfs_dist_inv);
        }
        let g = self;
        let ghost n = self.nodes@.len() as int;
        proof {
            let di = dist_ints(dist@);
            assert forall|v: int| 0 <= v < n implies 0 <= #[trigger] di[v] < n by {
                assert(finalized(dist@, v));
            }
            assert forall|v: int| 0 <= v < n implies ((#[trigger] g.is_sink(v)) <==> di[v] == 0) by {
                assert(finalized(dist@, v));
                if !g.is_sink(v) {
                    assert(1 <= dist@[v]);
                }
            }
            assert forall|u2: int, w: int|
                0 <= u2 < n && 0 <= w < n && #[trigger] g.has_edge(u2, w) implies di[u2] >= di[w]
                + 1 by {
                assert(finalized(dist@, w));
                assert(finalized(dist@, u2));
            }
            assert forall|u2: int|
                0 <= u2 < n && !(#[trigger] g.is_sink(u2)) implies exists|w: int|
                0 <= w < n && g.has_edge(u2, w) && di[u2] == di[w] + 1 by {
                assert(finalized(dist@, u2));
                assert(bfs_parent_bound(*g, dist@, u2, dist@[u2] as int));
                let w1 = choose|w: int|
                    0 <= w < n && g.has_edge(u2, w) && #[trigger] finalized(dist@, w) && dist@[u2] as int
                        <= dist@[w] + 1;
                assert(di[u2] >= di[w1] + 1);
                assert(0 <= w1 < n && g.has_edge(u2, w1) && di[u2] == di[w1] + 1);
            }
            assert(g.depth_assignment(di));
            assert forall|v: int, d2: int|
                #![trigger dist@[v], level_occupied(dist@, d2)]
                0 <= v < n && 0 <= d2 <= dist@[v] implies level_occupied(dist@, d2) by {
                lemma_depth_descend(*g, di, v, d2);
                let u2 = choose|u3: int| 0 <= u3 < g.node_count() && #[trigger] di[u3] == d2;
                assert(dist@[u2] == d2);
            }
            assert forall|v: int| 0 <= v < dist@.len() implies #[trigger] dist@[v] < dist@.len() by {
                assert(finalized(dist@, v));
            }
        }
        let so = assemble(dist);
        proof {
            let di = dist_ints(dist@);
            assert forall|v: int| 0 <= v < n implies #[trigger] so.node_depth(v) == di[v] by {
                assert(so.has_position(v));
                let j = so.position_of(v);
                assert(0 <= j < so.order_indices@.len() && so.order_indices@[j] == v);
                assert(so.depths@[j] == dist@[v]);
            }
            assert(so.node_depths(n) =~= di);
            assert(g.depth_assignment(so.node_depths(n)));
            assert forall|j: int|
                0 <= j < n implies #[trigger] so.depths@[j] == so.node_depth(so.order_indices@[j] as int) by {
                assert(so.node_depth(so.order_indices@[j] as int) == di[so.order_indices@[j] as int]);
            }
            assert(so.valid_for(*g));
        }
        so
    }

    /// Pushes every producer of `cur` one level past `cur`'s depth.
    #[verifier::rlimit(100)]
    #[verifier::spinoff_prover]
    fn bfs_expand(
        &self,
        queue: &mut VecDeque<(usize, usize)>,
        dist: &Vec<usize>,
        cur: usize,
        cd: usize,
        Ghost(gd): Ghost<Seq<int>>,
        Ghost(has_valid): Ghost<bool>,
    )
        requires
            self.wf(),
            dist@.len() == self.nodes@.len(),
            (cur as int) < self.node_count(),
            (cd as int) < self.node_count(),
            bfs_dist_inv(*self, dist@),
            finalized(dist@, cur as int),
            dist@[cur as int] == cd,
            forall|v: int|
                0 <= v < self.node_count() && #[trigger] finalized(dist@, v) ==> dist@[v] <= cd,
            bfs_entries_wf(*self, old(queue)@),
            bfs_queue_inv(*self, dist@, old(queue)@),
            forall|k: int| 0 <= k < old(queue)@.len() ==> cd <= (#[trigger] old(queue)@[k]).1 <= cd + 1,
            bfs_closure_except(*self, dist@, old(queue)@, cur as int),
            bfs_sinks_covered(*self, dist@, old(queue)@),
            has_valid ==> self.depth_assignment(gd),
            has_valid ==> bfs_bounded(*self, gd, dist@, old(queue)@),
        ensures
            bfs_entries_wf(*self, final(queue)@),
            bfs_queue_inv(*self, dist@, final(queue)@),
            bfs_closure(*self, dist@, final(queue)@),
            bfs_sinks_covered(*self, dist@, final(queue)@),
            has_valid ==> bfs_bounded(*self, gd, dist@, final(queue)@),
    {
        let ghost g = *self;
        let ghost n = self.nodes@.len() as int;
        let nd: usize = cd + 1;
        let ghost conns = g.to_connections@[cur as int]@;
        let mut k: usize = 0;
        while k < self.to_connections[cur].len()
            invariant
                g == *self,
                g.wf(),
                n == g.nodes@.len(),
                (cur as int) < n,
                cd < n,
                nd == cd + 1,
                conns == g.to_connections@[cur as int]@,
                k <= conns.len(),
                dist@.len() == n,
                bfs_dist_inv(g, dist@),
                finalized(dist@, cur as int),
                dist@[cur as int] == cd,
                forall|v: int|
                    0 <= v < n && #[trigger] finalized(dist@, v) ==> dist@[v] <= cd,
                bfs_entries_wf(g, queue@),
                bfs_queue_inv(g, dist@, queue@),
                forall|k2: int|
                    0 <= k2 < queue@.len() ==> cd <= (#[trigger] queue@[k2]).1 <= cd + 1,
                bfs_closure_except(g, dist@, queue@, cur as int),
                bfs_sinks_covered(g, dist@, queue@),
                forall|j2: int|
                    #![trigger conns[j2]]
                    0 <= j2 < k ==> bfs_pending(queue@, conns[j2].from_index as int, nd as int),
                has_valid ==> g.depth_assignment(gd),
                has_valid ==> bfs_bounded(g, gd, dist@, queue@),
            decreases conns.len() - k,
        {
            let ghost qpre = queue@;
            let c_from: usize = self.to_connections[cur][k].from_index;
            proof {
                reveal(bfs_dist_inv);
                reveal(bfs_queue_inv);
                reveal(bfs_closure);
                reveal(bfs_closure_except);
                reveal(bfs_sinks_covered);
                reveal(bfs_bounded);
                assert(conns[k as int].to_index == cur as int && 0 <= conns[k as int].from_index < n);
                assert(g.has_edge(c_from as int, cur as int));
                if has_valid {
                    assert(gd[c_from as int] >= gd[cur as int] + 1);
                    assert(dist@[cur as int] <= gd[cur as int]);
                }
            }
            queue.push_back((c_from, nd));
            proof {
                assert(queue@ == qpre.push((c_from, nd)));
                assert(queue@[queue@.len() - 1] == (c_from, nd));
                assert forall|k1: int, k2: int|
                    0 <= k1 <= k2 < queue@.len() implies (#[trigger] queue@[k1]).1
                    <= (#[trigger] queue@[k2]).1 by {
                    if k1 < queue@.len() - 1 {
                        assert(queue@[k1] == qpre[k1]);
                    }
                    if k2 < queue@.len() - 1 {
                        assert(queue@[k2] == qpre[k2]);
                    }
                }
                assert(bfs_parent_bound(g, dist@, c_from as int, nd as int));
                assert forall|k2: int|
                    0 <= k2 < queue@.len() implies bfs_entry_ok(g, dist@, #[trigger] queue@[k2]) by {
                    if k2 < queue@.len() - 1 {
                        assert(queue@[k2] == qpre[k2]);
                    }
                }
                assert forall|w: int, u: int|
                    0 <= w < n && 0 <= u < n && w != cur as int && #[trigger] finalized(dist@, w)
                        && #[trigger] g.has_edge(u, w) implies (finalized(dist@, u) && dist@[u]
                    >= dist@[w] + 1) || bfs_pending(queue@, u, dist@[w] + 1) by {
                    if !(finalized(dist@, u) && dist@[u] >= dist@[w] + 1) {
                        let kk = choose|k2: int|
                            0 <= k2 < qpre.len() && (#[trigger] qpre[k2]).0 == u && qpre[k2].1
                                >= dist@[w] + 1;
                        assert(queue@[kk] == qpre[kk]);
                    }
                }
                assert forall|v: int|
                    0 <= v < n && #[trigger] g.is_sink(v) implies finalized(dist@, v) || bfs_pending(
                        queue@,
                        v,
                        0,
                    ) by {
                    if !finalized(dist@, v) {
                        let kk = choose|k2: int|
                            0 <= k2 < qpre.len() && (#[trigger] qpre[k2]).0 == v && qpre[k2].1 >= 0;
                        assert(queue@[kk] == qpre[kk]);
                    }
                }
                assert forall|j2: int|
                    #![trigger conns[j2]]
                    0 <= j2 < k + 1 implies bfs_pending(queue@, conns[j2].from_index as int, nd as int) by {
                    if j2 < k {
                        let kk = choose|k2: int|
                            0 <= k2 < qpre.len() && (#[trigger] qpre[k2]).0 == conns[j2].from_index as int
                                && qpre[k2].1 >= nd as int;
                        assert(queue@[kk] == qpre[kk]);
                    } else {
                        assert(queue@[queue@.len() - 1].0 == conns[j2].from_index);
                    }
                }
            }
            k = k + 1;
        }
        proof {
            lemma_bfs_enqueue_done(g, dist@, queue@, cur as int, nd as int);
        }
    }

    /// The error naming the node at which a cycle was detected.
    fn cycle_error(&self, cur: usize) -> (e: GraphError)
        requires
            (cur as int) < self.nodes@.len(),
        ensures
            match e {
                GraphError::InternalError { message } => message@ == "Cycle detected at node "@
                    + self.nodes@[cur as int].name@ && message@ != "EmptyGraph"@,
                GraphError::ParseError { .. } => false,
            },
    {
        proof {
            reveal_strlit("EmptyGraph");
            reveal_strlit("Cycle detected at node ");
        }
        let mut message = "Cycle detected at node ".to_owned();
        append_str(&mut message, self.nodes[cur].name.as_str());
        proof {
            assert(message@.len() >= 23);
            assert("EmptyGraph"@.len() == 10);
        }
        GraphError::InternalError { message }
    }

    /// The error naming a node that no sink can be reached from.
    fn unreachable_error(&self, u: usize) -> (e: GraphError)
        requires
            (u as int) < self.nodes@.len(),
        ensures
            match e {
                GraphError::InternalError { message } => message@ == "Unreachable node "@
                    + self.nodes@[u as int].name@ && message@ != "EmptyGraph"@,
                GraphError::ParseError { .. } => false,
            },
    {
        proof {
            reveal_strlit("EmptyGraph");
            reveal_strlit("Unreachable node ");
        }
        let mut message = "Unreachable node ".to_owned();
        append_str(&mut message, self.nodes[u].name.as_str());
        proof {
            assert(message@.len() >= 17);
            assert("EmptyGraph"@.len() == 10);
        }
        GraphError::InternalError { message }
    }

    /// Assigns every node its depth by a breadth-first walk from the sinks
    /// against the direction of the connections, and returns the nodes
    /// ordered by depth, ties broken by node index. Succeeds exactly on the
    /// non-empty graphs that admit a depth assignment; a graph without
    /// sinks, a graph whose walk outruns the node count (a cycle), and a
    /// graph with a node no sink can be reached from are refused, the error
    /// naming the node where detection triggered.
    #[verifier::rlimit(100)]
    #[verifier::spinoff_prover]
    pub fn reverse_topological_sort(&self) -> (r: Result<SortOrder, GraphError>)
        requires
            self.wf(),
        ensures
            (r is Ok) <==> self.sortable(),
            match r {
                Ok(so) => so.valid_for(*self),
                Err(e) => match e {
                    GraphError::InternalError { message } => {
                        &&& (message@ == "EmptyGraph"@ <==> (forall|v: int|
                            0 <= v < self.node_count() ==> !(#[trigger] self.is_sink(v))))
                        &&& (message@ == "EmptyGraph"@ || (exists|v: int|
                            0 <= v < self.node_count() && message@ == "Cycle detected at node "@
                                + (#[trigger] self.nodes@[v]).name@) || (exists|v: int|
                            0 <= v < self.node_count() && message@ == "Unreachable node "@
                                + (#[trigger] self.nodes@[v]).name@))
                    },
                    GraphError::ParseError { .. } => false,
                },
            },
    {
        let ghost g = *self;
        let n: usize = self.nodes.len();
        let ghost has_valid = exists|d: Seq<int>| g.depth_assignment(d);
        let ghost gd: Seq<int> = if has_valid {
            choose|d: Seq<int>| g.depth_assignment(d)
        } else {
            Seq::empty()
        };
        let mut queue: VecDeque<(usize, usize)> = VecDeque::new();
        let mut s: usize = 0;
        while s < n
            invariant
                g == *self,
                g.wf(),
                n == g.nodes@.len(),
                s <= n,
                forall|k: int|
                    0 <= k < queue@.len() ==> {
                        let e = #[trigger] queue@[k];
                        e.1 == 0 && 0 <= e.0 < s && g.is_sink(e.0 as int)
                    },
                forall|v: int| 0 <= v < s && #[trigger] g.is_sink(v) ==> bfs_pending(queue@, v, 0),
            decreases n - s,
        {
            let ghost qpre = queue@;
            if self.from_connections[s].len() == 0 {
                queue.push_back((s, 0));
            }
            proof {
                assert forall|v: int|
                    0 <= v < s + 1 && #[trigger] g.is_sink(v) implies bfs_pending(queue@, v, 0) by {
                    if v == s {
                        assert(queue@[queue@.len() - 1].0 == v && queue@[queue@.len() - 1].1 >= 0);
                    } else {
                        let kk = choose|k: int|
                            0 <= k < qpre.len() && (#[trigger] qpre[k]).0 == v && qpre[k].1 >= 0;
                        assert(queue@[kk] == qpre[kk]);
                    }
                }
            }
            s = s + 1;
        }
        if queue.len() == 0 {
            proof {
                lemma_empty_graph(g, queue@);
            }
            return Err(GraphError::InternalError { message: "EmptyGraph".to_owned() });
        }
        let ghost sink_wit = queue@[0].0 as int;
        proof {
            assert(g.is_sink(sink_wit) && 0 <= sink_wit < n);
        }
        let mut dist: Vec<usize> = vec![usize::MAX; n];
        proof {
            lemma_bfs_init(g, dist@, queue@);
            if has_valid {
                lemma_bfs_init_bounded(g, gd, dist@, queue@);
            }
        }
        while queue.len() > 0
            invariant
                g == *self,
                g.wf(),
                n == g.nodes@.len(),
                n > 0,
                0 <= sink_wit < n && g.is_sink(sink_wit),
                has_valid == exists|d: Seq<int>| g.depth_assignment(d),
                has_valid ==> g.depth_assignment(gd),
                dist@.len() == n,
                bfs_entries_wf(g, queue@),
                bfs_dist_inv(g, dist@),
                bfs_queue_inv(g, dist@, queue@),
                bfs_closure(g, dist@, queue@),
                bfs_sinks_covered(g, dist@, queue@),
                has_valid ==> bfs_bounded(g, gd, dist@, queue@),
            decreases bfs_weight_sum(dist@, n as int, n as int), queue@.len(),
        {
            proof {
                lemma_weight_sum_nonneg(dist@, n as int, n as int);
            }
            let ghost q0 = queue@;
            let ghost dist0 = dist@;
            let popped = queue.pop_front();
            let (cur, cd) = match popped {
                Some(p) => p,
                None => {
                    proof {
                        assert(false);
                    }
                    (0, 0)
                },
            };
            proof {
                assert(queue@ =~= q0.drop_first());
            }
            if cd >= n {
                proof {
                    if has_valid {
                        reveal(bfs_bounded);
                        assert(q0[0].1 <= gd[q0[0].0 as int]);
                        assert(gd[cur as int] < n);
                        assert(false);
                    }
                    assert(0 <= (cur as int) < n);
                }
                return Err(self.cycle_error(cur));
            }
            let dcur: usize = dist[cur];
            if dcur != cd {
                proof {
                    lemma_bfs_assign_dist(g, dist@, q0, cur as int, cd);
                    lemma_bfs_assign_queue(g, dist@, q0, cur as int, cd);
                    lemma_bfs_assign_closure(g, dist@, q0, cur as int, cd);
                    if has_valid {
                        lemma_bfs_bounded_step(g, gd, dist@, q0, cur as int, cd);
                    }
                }
                dist[cur] = cd;
                proof {
                    assert(dist@ == dist0.update(cur as int, cd));
                }
                self.bfs_expand(&mut queue, &dist, cur, cd, Ghost(gd), Ghost(has_valid));
                proof {
                    lemma_weight_sum_update(dist0, n as int, n as int, cur as int, cd);
                    lemma_weight_sum_nonneg(dist@, n as int, n as int);
                    assert(bfs_weight_sum(dist@, n as int, n as int) < bfs_weight_sum(
                        dist0,
                        n as int,
                        n as int,
                    ));
                }
            } else {
                proof {
                    lemma_bfs_skip(g, dist@, q0);
                    if has_valid {
                        lemma_bfs_bounded_step(g, gd, dist@, q0, cur as int, cd);
                    }
                }
            }
        }
        proof {
            lemma_bfs_drained(g, dist@, queue@);
        }
        let mut u: usize = 0;
        while u < n
            invariant
                g == *self,
                g.wf(),
                n == g.nodes@.len(),
                n > 0,
                0 <= sink_wit < n && g.is_sink(sink_wit),
                has_valid == exists|d: Seq<int>| g.depth_assignment(d),
                has_valid ==> g.depth_assignment(gd),
                bfs_dist_inv(g, dist@),
                dist@.len() == n,
                u <= n,
                forall|v: int| 0 <= v < u ==> #[trigger] finalized(dist@, v),
                forall|v: int| 0 <= v < n && #[trigger] g.is_sink(v) ==> finalized(dist@, v),
                forall|w: int, u2: int|
                    0 <= w < n && 0 <= u2 < n && #[trigger] finalized(dist@, w) && #[trigger] g.has_edge(
                        u2,
                        w,
                    ) ==> finalized(dist@, u2) && dist@[u2] >= dist@[w] + 1,
            decreases n - u,
        {
            if dist[u] == usize::MAX {
                proof {
                    if has_valid {
                        assert(gd[u as int] >= 0);
                        lemma_reachable_finalized(g, dist@, gd, gd[u as int]);
                        assert(finalized(dist@, u as int));
                        assert(false);
                    }
                }
                return Err(self.unreachable_error(u));
            }
            u = u + 1;
        }
        let so = self.build_order(&dist);
        Ok(so)
    }

    /// Builds a graph from a description: the nodes in order, and the
    /// connections as pairs of source and destination keys. Each key is
    /// resolved to the largest node index carrying it; a connection naming
    /// an unknown key is an error naming that key, at the first such
    /// connection.
    pub fn build(nodes: Vec<Node>, connections: Vec<(String, String)>) -> (r: Result<Graph, GraphError>)
        ensures
            (r is Ok) <==> resolves(nodes@, connections@),
            match r {
                Ok(g) => {
                    &&& g.wf()
                    &&& g.nodes@ == nodes@
                    &&& forall|v: int|
                        0 <= v < nodes@.len() ==> (#[trigger] g.from_connections@[v])@ == from_conns_upto(
                            nodes@,
                            connections@,
                            v,
                            connections@.len() as int,
                        )
                    &&& forall|v: int|
                        0 <= v < nodes@.len() ==> (#[trigger] g.to_connections@[v])@ == to_conns_upto(
                            nodes@,
                            connections@,
                            v,
                            connections@.len() as int,
                        )
                },
                Err(e) => match e {
                    GraphError::InternalError { message } => exists|i: int|
                        #[trigger] first_unresolved(nodes@, connections@, i) && if !has_key(
                            nodes@,
                            connections@[i].0@,
                        ) {
                            message@ == "Invalid from reference "@ + connections@[i].0@
                        } else {
                            message@ == "Invalid to reference "@ + connections@[i].1@
                        },
                    GraphError::ParseError { .. } => false,
                },
            },
    {
        let n = nodes.len();
        let m = connections.len();
        let mut resolved: Vec<Connection> = Vec::new();
        let mut i: usize = 0;
        while i < m
            invariant
                m == connections@.len(),
                i <= m,
                resolved@.len() == i,
                forall|i2: int|
                    0 <= i2 < i ==> has_key(nodes@, (#[trigger] connections@[i2]).0@) && has_key(
                        nodes@,
                        connections@[i2].1@,
                    ),
                forall|i2: int| 0 <= i2 < i ==> #[trigger] resolved@[i2] == conn_pair(nodes@, connections@[i2]),
            decreases m - i,
        {
            let from_found = find_key(&nodes, &connections[i].0);
            let from_index = match from_found {
                Some(j) => j,
                None => {
                    let mut message = "Invalid from reference ".to_owned();
                    append_str(&mut message, connections[i].0.as_str());
                    proof {
                        assert(first_unresolved(nodes@, connections@, i as int));
                    }
                    return Err(GraphError::InternalError { message });
                },
            };
            let to_found = find_key(&nodes, &connections[i].1);
            let to_index = match to_found {
                Some(j) => j,
                None => {
                    let mut message = "Invalid to reference ".to_owned();
                    append_str(&mut message, connections[i].1.as_str());
                    proof {
                        assert(has_key(nodes@, connections@[i as int].0@));
                        assert(first_unresolved(nodes@, connections@, i as int));
                    }
                    return Err(GraphError::InternalError { message });
                },
            };
            proof {
                assert(has_key(nodes@, connections@[i as int].0@));
                assert(has_key(nodes@, connections@[i as int].1@));
                lemma_key_index_exists(nodes@, connections@[i as int].0@);
                lemma_key_index_exists(nodes@, connections@[i as int].1@);
                lemma_key_index_unique(
                    nodes@,
                    connections@[i as int].0@,
                    key_index(nodes@, connections@[i as int].0@),
                    from_index as int,
                );
                lemma_key_index_unique(
                    nodes@,
                    connections@[i as int].1@,
                    key_index(nodes@, connections@[i as int].1@),
                    to_index as int,
                );
            }
            resolved.push(Connection { from_index, to_index });
            i = i + 1;
        }
        let mut from_connections: Vec<Vec<Connection>> = Vec::new();
        let mut v: usize = 0;
        while v < n
            invariant
                n == nodes@.len(),
                m == connections@.len(),
                v <= n,
                resolved@.len() == m,
                resolves(nodes@, connections@),
                forall|i2: int| 0 <= i2 < m ==> #[trigger] resolved@[i2] == conn_pair(nodes@, connections@[i2]),
                from_connections@.len() == v,
                forall|v2: int|
                    0 <= v2 < v ==> (#[trigger] from_connections@[v2])@ == from_conns_upto(
                        nodes@,
                        connections@,
                        v2,
                        m as int,
                    ),
            decreases n - v,
        {
            let mut fc: Vec<Connection> = Vec::new();
            let mut k: usize = 0;
            while k < m
                invariant
                    n == nodes@.len(),
                    m == connections@.len(),
                    v < n,
                    k <= m,
                    resolved@.len() == m,
                    forall|i2: int|
                        0 <= i2 < m ==> #[trigger] resolved@[i2] == conn_pair(nodes@, connections@[i2]),
                    fc@ == from_conns_upto(nodes@, connections@, v as int, k as int),
                decreases m - k,
            {
                if resolved[k].from_index == v {
                    fc.push(Connection { from_index: resolved[k].from_index, to_index: resolved[k].to_index });
                }
                k = k + 1;
            }
            from_connections.push(fc);
            v = v + 1;
        }
        let mut to_connections: Vec<Vec<Connection>> = Vec::new();
        let mut w: usize = 0;
        while w < n
            invariant
                n == nodes@.len(),
                m == connections@.len(),
                w <= n,
                resolved@.len() == m,
                resolves(nodes@, connections@),
                forall|i2: int| 0 <= i2 < m ==> #[trigger] resolved@[i2] == conn_pair(nodes@, connections@[i2]),
                to_connections@.len() == w,
                forall|v2: int|
                    0 <= v2 < w ==> (#[trigger] to_connections@[v2])@ == to_conns_upto(
                        nodes@,
                        connections@,
                        v2,
                        m as int,
                    ),
            decreases n - w,
        {
            let mut tc: Vec<Connection> = Vec::new();
            let mut k: usize = 0;
            while k < m
                invariant
                    n == nodes@.len(),
                    m == connections@.len(),
                    w < n,
                    k <= m,
                    resolved@.len() == m,
                    forall|i2: int|
                        0 <= i2 < m ==> #[trigger] resolved@[i2] == conn_pair(nodes@, connections@[i2]),
                    tc@ == to_conns_upto(nodes@, connections@, w as int, k as int),
                decreases m - k,
            {
                if resolved[k].to_index == w {
                    tc.push(Connection { from_index: resolved[k].from_index, to_index: resolved[k].to_index });
                }
                k = k + 1;
            }
            to_connections.push(tc);
            w = w + 1;
        }
        let g = Graph { nodes, from_connections, to_connections };
        proof {
            let ns = g.nodes@;
            let cs = connections@;
            let mm = m as int;
            assert forall|v2: int, k: int|
                0 <= v2 < g.node_count() && 0 <= k < g.from_connections@[v2]@.len() implies {
                let c = #[trigger] g.from_connections@[v2]@[k];
                c.from_index == v2 && 0 <= c.to_index < g.node_count()
            } by {
                lemma_from_conns_shape(ns, cs, v2, mm);
            }
            assert forall|v2: int, k: int|
                0 <= v2 < g.node_count() && 0 <= k < g.to_connections@[v2]@.len() implies {
                let c = #[trigger] g.to_connections@[v2]@[k];
                c.to_index == v2 && 0 <= c.from_index < g.node_count()
            } by {
                lemma_to_conns_shape(ns, cs, v2, mm);
            }
            assert forall|u: int, w2: int|
                0 <= u < g.node_count() && 0 <= w2 < g.node_count() implies ((#[trigger] g.from_edge(u, w2))
                <==> (#[trigger] g.has_edge(u, w2))) by {
                lemma_from_conns_shape(ns, cs, u, mm);
                lemma_to_conns_shape(ns, cs, w2, mm);
                assert(seq_has_to(g.from_connections@[u]@, w2) <==> pair_in(ns, cs, mm, u, w2));
                assert(seq_has_from(g.to_connections@[w2]@, u) <==> pair_in(ns, cs, mm, u, w2));
            }
        }
        Ok(g)
    }
}

/// Bounds that every valid sort order obeys: no more levels than nodes,
/// no level holding more nodes than exist, in-level indices below their
/// position, and depths below the level count.
pub proof fn lemma_valid_for_bounds(g: Graph, so: SortOrder)
    requires
        g.wf(),
        so.valid_for(g),
    ensures
        1 <= so.nodes_in_level@.len() <= g.node_count(),
        forall|d: int|
            0 <= d < so.nodes_in_level@.len() ==> 0 <= (#[trigger] so.nodes_in_level@[d])
                <= g.node_count(),
        forall|j: int|
            0 <= j < g.node_count() ==> 0 <= (#[trigger] so.index_at_depth@[j]) <= j,
        forall|j: int|
            0 <= j < g.node_count() ==> 0 <= (#[trigger] so.depths@[j]) < so.nodes_in_level@.len(),
{
    let n = g.node_count();
    let dep = so.depths@;
    let nd = so.node_depths(n);
    assert(g.depth_assignment(nd));
    assert forall|j: int| 0 <= j < n implies 0 <= (#[trigger] dep[j]) < so.nodes_in_level@.len() by {
        assert(dep[j] == so.node_depth(so.order_indices@[j] as int));
        assert(0 <= so.order_indices@[j] < n);
        assert(nd[so.order_indices@[j] as int] == so.node_depth(so.order_indices@[j] as int));
        assert(dep[j] <= dep[n - 1]);
    }
    assert(dep[n - 1] == so.node_depth(so.order_indices@[n - 1] as int));
    assert(nd[so.order_indices@[n - 1] as int] < n);
    assert(so.nodes_in_level@.len() == dep[n - 1] + 1);
    assert forall|d: int|
        0 <= d < so.nodes_in_level@.len() implies 0 <= (#[trigger] so.nodes_in_level@[d])
        <= g.node_count() by {
        assert(so.nodes_in_level@[d] == count_eq_upto(dep, d, n));
        lemma_count_eq_bound(dep, d, 0, n);
    }
    assert forall|j: int|
        0 <= j < n implies 0 <= (#[trigger] so.index_at_depth@[j]) <= j by {
        assert(so.index_at_depth@[j] == count_eq_upto(dep, dep[j] as int, j));
        lemma_count_eq_bound(dep, dep[j] as int, 0, j);
    }
}

/// Along a connection, the producer's level lies strictly above the
/// consumer's.
pub proof fn lemma_edge_levels(g: Graph, so: SortOrder, j: int, fj: int)
    requires
        g.wf(),
        so.valid_for(g),
        0 <= j < g.node_count(),
        0 <= fj < g.node_count(),
        g.has_edge(so.order_indices@[fj] as int, so.order_indices@[j] as int),
    ensures
        so.depths@[fj] >= so.depths@[j] + 1,
{
    let n = g.node_count();
    let nd = so.node_depths(n);
    let u = so.order_indices@[fj] as int;
    let w = so.order_indices@[j] as int;
    assert(g.depth_assignment(nd));
    assert(0 <= u < n && 0 <= w < n);
    assert(nd[u] >= nd[w] + 1);
    assert(so.depths@[fj] == so.node_depth(u));
    assert(so.depths@[j] == so.node_depth(w));
}

} // verus!