//! Immutable compressed-sparse-row graphs, and the distance-table model the
//! traversal workers are specified against.
//!
//! `nodes` holds, for each vertex, the offset of its first out-edge in
//! `edges`, closed by a final offset equal to the edge count.  The loader
//! that fills a graph from a file is an external collaborator; the validity
//! predicate here is what every traversal function relies on.

use vstd::prelude::*;

verus! {

/// The sentinel distance of a vertex not reached yet.
pub const INF: usize = usize::MAX;

/// One unweighted out-edge.
#[derive(Clone, Copy)]
pub struct Edge {
    pub target: usize,
}

/// One weighted out-edge.
#[derive(Clone, Copy)]
pub struct WghEdge {
    pub target: usize,
    pub weight: usize,
}

/// An unweighted graph in compressed-sparse-row form.
pub struct Graph {
    pub n: usize,
    pub m: usize,
    pub nodes: Vec<usize>,
    pub edges: Vec<Edge>,
}

/// A weighted graph in compressed-sparse-row form.
pub struct WghGraph {
    pub n: usize,
    pub m: usize,
    pub nodes: Vec<usize>,
    pub edges: Vec<WghEdge>,
}

impl Graph {
    /// A well-formed CSR layout: one closing offset per vertex list, offsets
    /// that never step backwards and end at the edge count, and in-range
    /// targets.
    pub open spec fn valid(&self) -> bool {
        &&& self.nodes@.len() == self.n + 1
        &&& self.edges@.len() == self.m
        &&& (forall|u: int| 0 <= u < self.n ==> #[trigger] self.nodes@[u] <= self.nodes@[u + 1])
        &&& self.nodes@[self.n as int] == self.m
        &&& (forall|i: int| 0 <= i < self.m ==> (#[trigger] self.edges@[i]).target < self.n)
    }

    pub fn num_nodes(&self) -> (r: usize)
        ensures
            r == self.n,
    {
        self.n
    }

    pub fn num_edges(&self) -> (r: usize)
        ensures
            r == self.m,
    {
        self.m
    }

    /// A zeroed graph shell of the given size, for a loader to fill.
    pub fn new(num_nodes: usize, num_edges: usize) -> (g: Self)
        ensures
            g.n == num_nodes,
            g.m == num_edges,
            g.nodes@.len() == num_nodes,
            forall|u: int| 0 <= u < num_nodes ==> g.nodes@[u] == 0,
            g.edges@.len() == num_edges,
            forall|i: int| 0 <= i < num_edges ==> (#[trigger] g.edges@[i]).target == 0,
    {
        Graph {
            nodes: vec![0usize; num_nodes],
            edges: vec![Edge { target: 0 }; num_edges],
            n: num_nodes,
            m: num_edges,
        }
    }

    /// Decides `valid`, so an unverified loader's output can be checked
    /// before the workers run on it.
    pub fn check_valid(&self) -> (r: bool)
        ensures
            r == self.valid(),
    {
        let node_len = self.nodes.len();
        if self.n == usize::MAX {
            // no vector could hold the n + 1 offsets
            return false;
        }
        if node_len != self.n + 1 {
            return false;
        }
        if self.edges.len() != self.m {
            return false;
        }
        if self.nodes[self.n] != self.m {
            return false;
        }
        let mut u: usize = 0;
        while u < self.n
            invariant
                u <= self.n,
                self.nodes@.len() == self.n + 1,
                forall|k: int| 0 <= k < u ==> #[trigger] self.nodes@[k] <= self.nodes@[k + 1],
            decreases self.n - u,
        {
            if self.nodes[u] > self.nodes[u + 1] {
                return false;
            }
            u = u + 1;
        }
        let mut i: usize = 0;
        while i < self.m
            invariant
                i <= self.m,
                self.edges@.len() == self.m,
                self.n < self.nodes@.len(),
                forall|k: int| 0 <= k < i ==> (#[trigger] self.edges@[k]).target < self.n,
            decreases self.m - i,
        {
            if self.edges[i].target >= self.n {
                return false;
            }
            i = i + 1;
        }
        true
    }
}

impl WghGraph {
    /// A well-formed CSR layout, as for the unweighted graph.
    pub open spec fn valid(&self) -> bool {
        &&& self.nodes@.len() == self.n + 1
        &&& self.edges@.len() == self.m
        &&& (forall|u: int| 0 <= u < self.n ==> #[trigger] self.nodes@[u] <= self.nodes@[u + 1])
        &&& self.nodes@[self.n as int] == self.m
        &&& (forall|i: int| 0 <= i < self.m ==> (#[trigger] self.edges@[i]).target < self.n)
    }

    pub fn num_nodes(&self) -> (r: usize)
        ensures
            r == self.n,
    {
        self.n
    }

    pub fn num_edges(&self) -> (r: usize)
        ensures
            r == self.m,
    {
        self.m
    }

    /// A zeroed graph shell of the given size, for a loader to fill.
    pub fn new(num_nodes: usize, num_edges: usize) -> (g: Self)
        ensures
            g.n == num_nodes,
            g.m == num_edges,
            g.nodes@.len() == num_nodes,
            forall|u: int| 0 <= u < num_nodes ==> g.nodes@[u] == 0,
            g.edges@.len() == num_edges,
            forall|i: int|
                0 <= i < num_edges ==> (#[trigger] g.edges@[i]).target == 0 && g.edges@[i].weight
                    == 0,
    {
        WghGraph {
            nodes: vec![0usize; num_nodes],
            edges: vec![WghEdge { target: 0, weight: 0 }; num_edges],
            n: num_nodes,
            m: num_edges,
        }
    }
}

/// Offsets of a valid graph never step backwards across any span.
pub proof fn lemma_offsets_monotone(g: Graph, u: int, v: int)
    requires
        g.valid(),
        0 <= u <= v <= g.n,
    ensures
        g.nodes@[u] <= g.nodes@[v],
    decreases v - u,
{
    if u < v {
        lemma_offsets_monotone(g, u + 1, v);
    }
}

/// Offsets of a valid weighted graph never step backwards across any span.
pub proof fn lemma_wgh_offsets_monotone(g: WghGraph, u: int, v: int)
    requires
        g.valid(),
        0 <= u <= v <= g.n,
    ensures
        g.nodes@[u] <= g.nodes@[v],
    decreases v - u,
{
    if u < v {
        lemma_wgh_offsets_monotone(g, u + 1, v);
    }
}

/// The total of a distance table, the measure that strict relaxations lower.
pub open spec fn sum_dist(s: Seq<usize>) -> nat
    decreases s.len(),
{
    if s.len() == 0 {
        0
    } else {
        sum_dist(s.drop_last()) + (s.last() as nat)
    }
}

/// A pointwise-lower table has a lower total.
pub proof fn lemma_sum_dist_le(a: Seq<usize>, b: Seq<usize>)
    requires
        a.len() == b.len(),
        forall|i: int| 0 <= i < a.len() ==> a[i] <= b[i],
    ensures
        sum_dist(a) <= sum_dist(b),
    decreases a.len(),
{
    if a.len() > 0 {
        assert(forall|i: int| 0 <= i < a.len() - 1 ==> a.drop_last()[i] == a[i]);
        assert(forall|i: int| 0 <= i < b.len() - 1 ==> b.drop_last()[i] == b[i]);
        lemma_sum_dist_le(a.drop_last(), b.drop_last());
    }
}

/// A pointwise-lower table that is strictly lower somewhere has a strictly
/// lower total.
pub proof fn lemma_sum_dist_lt(a: Seq<usize>, b: Seq<usize>, w: int)
    requires
        a.len() == b.len(),
        forall|i: int| 0 <= i < a.len() ==> a[i] <= b[i],
        0 <= w < a.len(),
        a[w] < b[w],
    ensures
        sum_dist(a) < sum_dist(b),
    decreases a.len(),
{
    assert(forall|i: int| 0 <= i < a.len() - 1 ==> a.drop_last()[i] == a[i]);
    assert(forall|i: int| 0 <= i < b.len() - 1 ==> b.drop_last()[i] == b[i]);
    if w == a.len() - 1 {
        lemma_sum_dist_le(a.drop_last(), b.drop_last());
    } else {
        lemma_sum_dist_lt(a.drop_last(), b.drop_last(), w);
    }
}

} // verus!
