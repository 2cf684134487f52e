//! The graph that routes are searched on.

use crate::geometry::{displacement, dot, dot_2d, integer_root_up, root_up, Point};
use vstd::prelude::*;

verus! {

/// A connection between two nodes, by their indices. It can be travelled
/// both ways.
#[derive(Debug, Clone, Copy, PartialEq, Eq, Hash, Structural)]
pub struct Edge(pub usize, pub usize);

/// Nodes at positions, and the connections between them.
#[derive(Debug)]
pub struct Graph {
    pub nodes: Vec<Point>,
    pub edges: Vec<Edge>,
}

/// Largest number of nodes of a graph that routes can be searched on.
pub const NODES_MAX: usize = 1_000_000_000;

/// The cost of the straight way between two positions: its length, rounded
/// up to a whole number.
pub open spec fn way_cost(a: Point, b: Point) -> int {
    root_up(dot(displacement(a, b), displacement(a, b)))
}

impl Graph {
    /// Every node is in bounds, every edge joins two nodes of the graph, and
    /// there are at most `NODES_MAX` nodes.
    pub open spec fn wf(&self) -> bool {
        &&& self.nodes@.len() <= NODES_MAX
        &&& forall|i: int| 0 <= i < self.nodes@.len() ==> (#[trigger] self.nodes@[i]).in_bounds()
        &&& forall|k: int|
            0 <= k < self.edges@.len() ==> (#[trigger] self.edges@[k]).0 < self.nodes@.len()
                && self.edges@[k].1 < self.nodes@.len()
    }

    /// Whether an edge joins the nodes `a` and `b`.
    pub open spec fn adjacent(&self, a: int, b: int) -> bool {
        exists|k: int|
            0 <= k < self.edges@.len() && joins(#[trigger] self.edges@[k], a, b)
    }

    /// The cost of going from node `a` straight to node `b`.
    pub open spec fn step_cost(&self, a: int, b: int) -> int {
        way_cost(self.nodes@[a], self.nodes@[b])
    }

    /// Whether the graph is well formed.
    pub fn is_valid(&self) -> (valid: bool)
        ensures
            valid == self.wf(),
    {
        if self.nodes.len() > NODES_MAX {
            return false;
        }
        let mut i: usize = 0;
        while i < self.nodes.len()
            invariant
                0 <= i <= self.nodes@.len(),
                forall|a: int| 0 <= a < i ==> (#[trigger] self.nodes@[a]).in_bounds(),
            decreases self.nodes@.len() - i,
        {
            if !self.nodes[i].is_in_bounds() {
                return false;
            }
            i += 1;
        }
        let mut k: usize = 0;
        while k < self.edges.len()
            invariant
                0 <= k <= self.edges@.len(),
                forall|a: int|
                    0 <= a < k ==> (#[trigger] self.edges@[a]).0 < self.nodes@.len()
                        && self.edges@[a].1 < self.nodes@.len(),
            decreases self.edges@.len() - k,
        {
            if self.edges[k].0 >= self.nodes.len() || self.edges[k].1 >= self.nodes.len() {
                return false;
            }
            k += 1;
        }
        true
    }

    /// The nodes that an edge joins to `node_index`, once for each such
    /// edge, in the order of the edges.
    pub fn neighbours(&self, node_index: usize) -> (next: Vec<usize>)
        requires
            self.wf(),
        ensures
            next@ == joined_to(self.edges@, node_index),
            forall|i: int|
                0 <= i < next@.len() ==> self.adjacent(node_index as int, #[trigger] next@[i] as int),
            forall|i: int| 0 <= i < next@.len() ==> (#[trigger] next@[i]) < self.nodes@.len(),
            forall|b: int|
                0 <= b < self.nodes@.len() && self.adjacent(node_index as int, b)
                    ==> next@.contains(b as usize),
    {
        let mut next: Vec<usize> = Vec::new();
        let mut k: usize = 0;
        while k < self.edges.len()
            invariant
                self.wf(),
                0 <= k <= self.edges@.len(),
                next@ == joined_to(self.edges@.take(k as int), node_index),
                forall|i: int|
                    0 <= i < next@.len() ==> self.adjacent(
                        node_index as int,
                        #[trigger] next@[i] as int,
                    ),
                forall|i: int| 0 <= i < next@.len() ==> (#[trigger] next@[i]) < self.nodes@.len(),
                forall|j: int, b: int|
                    0 <= j < k && joins(#[trigger] self.edges@[j], node_index as int, b)
                        ==> #[trigger] next@.contains(b as usize),
            decreases self.edges@.len() - k,
        {
            let edge = self.edges[k];
            let ghost before = next@;
            proof {
                let longer = self.edges@.take(k as int + 1);
                assert(longer.drop_last() =~= self.edges@.take(k as int));
                assert(longer.last() == edge);
            }
            if edge.0 == node_index {
                next.push(edge.1);
                assert(joins(self.edges@[k as int], node_index as int, edge.1 as int));
            } else if edge.1 == node_index {
                next.push(edge.0);
                assert(joins(self.edges@[k as int], node_index as int, edge.0 as int));
            }
            proof {
                assert forall|j: int, b: int|
                    0 <= j < k + 1 && joins(
                        #[trigger] self.edges@[j],
                        node_index as int,
                        b,
                    ) implies #[trigger] next@.contains(b as usize) by {
                    if j < k {
                        assert(before.contains(b as usize));
                        let at = choose|at: int| 0 <= at < before.len() && before[at] == b as usize;
                        assert(next@[at] == b as usize);
                    } else {
                        assert(next@[next@.len() - 1] == b as usize);
                    }
                }
            }
            k += 1;
        }
        assert(self.edges@.take(self.edges@.len() as int) =~= self.edges@);
        next
    }

    /// The cost of going from node `current` straight to node `next`.
    pub fn cost(&self, current: usize, next: usize) -> (c: u64)
        requires
            self.wf(),
            current < self.nodes@.len(),
            next < self.nodes@.len(),
        ensures
            c == self.step_cost(current as int, next as int),
            c <= 1_500_000,
    {
        let way = self.nodes[next].minus(&self.nodes[current]);
        let squared = dot_2d(way, way);
        proof {
            assert(way.x * way.x >= 0) by (nonlinear_arith);
            assert(way.y * way.y >= 0) by (nonlinear_arith);
        }
        let c = integer_root_up(squared as u128);
        proof {
            assert(c <= 1_500_000) by (nonlinear_arith)
                requires
                    c > 0 ==> (c - 1) * (c - 1) < squared,
                    squared <= 2_000_000_000_000,
            ;
        }
        c
    }
}

/// The other ends of those of `edges` that end in the node `node`, in
/// their order.
pub open spec fn joined_to(edges: Seq<Edge>, node: usize) -> Seq<usize>
    decreases edges.len(),
{
    if edges.len() == 0 {
        Seq::empty()
    } else {
        let before = joined_to(edges.drop_last(), node);
        let edge = edges.last();
        if edge.0 == node {
            before.push(edge.1)
        } else if edge.1 == node {
            before.push(edge.0)
        } else {
            before
        }
    }
}

/// Whether `edge` joins the nodes `a` and `b`, either way round.
pub open spec fn joins(edge: Edge, a: int, b: int) -> bool {
    (edge.0 == a && edge.1 == b) || (edge.0 == b && edge.1 == a)
}

} // verus!
