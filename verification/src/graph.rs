//! The directed graph the engine ranks: one ordered list of outgoing-edge
//! targets per node, validated once at construction so that every edge
//! target is a node index.

use vstd::prelude::*;

use crate::model::valid_graph;

verus! {

/// Why adjacency lists were rejected at construction.
#[derive(Clone, Copy, Debug, PartialEq, Eq, Structural)]
pub enum GraphError {
    /// Some edge points at an index that is not a node of the graph.
    OutOfRangeEdge,
}

/// A directed graph over nodes `0 .. n - 1`. Node `u` owns an ordered list
/// of edge targets; duplicates and self-loops are permitted. A value of
/// this type always satisfies `valid_graph`: construction checks it.
pub struct Graph {
    nodes: Vec<Vec<usize>>,
}

impl View for Graph {
    type V = Seq<Seq<usize>>;

    closed spec fn view(&self) -> Seq<Seq<usize>> {
        Seq::new(self.nodes@.len(), |i: int| self.nodes@[i]@)
    }
}

/// The adjacency structure a `Graph` built from these lists would show.
pub open spec fn adjacency_view(nodes: Seq<Vec<usize>>) -> Seq<Seq<usize>> {
    Seq::new(nodes.len(), |i: int| nodes[i]@)
}

impl Graph {
    #[verifier::type_invariant]
    pub(crate) open spec fn wf(&self) -> bool {
        valid_graph(self@)
    }

    /// Validates the adjacency lists: succeeds exactly when every edge
    /// target lies in range, and otherwise rejects them as out of range.
    pub fn new(nodes: Vec<Vec<usize>>) -> (r: Result<Graph, GraphError>)
        ensures
            match r {
                Ok(g) => g@ == adjacency_view(nodes@) && valid_graph(adjacency_view(nodes@)),
                Err(e) => e == GraphError::OutOfRangeEdge && !valid_graph(
                    adjacency_view(nodes@),
                ),
            },
    {
        let n = nodes.len();
        let mut u: usize = 0;
        while u < n
            invariant
                u <= n,
                n == nodes@.len(),
                forall|a: int, b: int|
                    0 <= a < u && 0 <= b < nodes@[a]@.len() ==> #[trigger] nodes@[a]@[b] < n,
            decreases n - u,
        {
            let deg = nodes[u].len();
            let mut k: usize = 0;
            while k < deg
                invariant
                    u < n,
                    k <= deg,
                    n == nodes@.len(),
                    deg == nodes@[u as int]@.len(),
                    forall|b: int| 0 <= b < k ==> #[trigger] nodes@[u as int]@[b] < n,
                decreases deg - k,
            {
                if nodes[u][k] >= n {
                    proof {
                        let gv = adjacency_view(nodes@);
                        assert(gv[u as int][k as int] == nodes@[u as int]@[k as int]);
                        assert(!valid_graph(gv));
                    }
                    return Err(GraphError::OutOfRangeEdge);
                }
                k += 1;
            }
            u += 1;
        }
        let g = Graph { nodes };
        proof {
            let gv = adjacency_view(g.nodes@);
            assert forall|a: int, b: int|
                0 <= a < gv.len() && 0 <= b < gv[a].len() implies #[trigger] gv[a][b]
                < gv.len() by {
                assert(gv[a][b] == g.nodes@[a]@[b]);
            }
            assert(g@ =~= gv);
        }
        Ok(g)
    }

    /// The number of nodes.
    pub fn node_count(&self) -> (n: usize)
        ensures
            n == self@.len(),
    {
        self.nodes.len()
    }

    /// The out-degree of node `u`: how many outgoing edges it owns.
    pub fn out_degree(&self, u: usize) -> (d: usize)
        requires
            u < self@.len(),
        ensures
            d == self@[u as int].len(),
    {
        self.nodes[u].len()
    }

    /// The `k`-th outgoing edge target of node `u`, always in range.
    pub fn target(&self, u: usize, k: usize) -> (t: usize)
        requires
            u < self@.len(),
            k < self@[u as int].len(),
        ensures
            t == self@[u as int][k as int],
            t < self@.len(),
    {
        proof {
            use_type_invariant(&*self);
        }
        self.nodes[u][k]
    }
}

} // verus!
