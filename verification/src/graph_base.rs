//! What every graph representation shares: edges, errors, and ordered edges.

use vstd::prelude::*;

verus! {

/// An edge between a top node and a bottom node.
pub type Edge = (u64, u64);

/// Why a graph was rejected.
#[derive(Clone, Copy, Debug, PartialEq, Eq, Structural)]
pub enum GraphError {
    /// An edge names a node outside its layer.
    IndexOutOfRange,
    /// The announced number of edges is not the number of edges supplied.
    CountMismatch,
}

/// A copy of an edge list.
pub fn copy_edges(edges: &Vec<Edge>) -> (copy: Vec<Edge>)
    ensures
        copy@ == edges@,
{
    let mut copy: Vec<Edge> = Vec::new();
    let mut k: usize = 0;
    while k < edges.len()
        invariant
            k <= edges.len(),
            copy@ == edges@.take(k as int),
        decreases edges.len() - k,
    {
        copy.push(edges[k]);
        assert(edges@.take(k + 1) == edges@.take(k as int).push(edges@[k as int]));
        k += 1;
    }
    assert(edges@.take(k as int) == edges@);
    copy
}

/// A graph that can hand out its edges by the ranks of their endpoints.
///
/// In the edges handed out, nodes are numbered from 0 in each layer, from left
/// to right: the first component of an edge is the rank of its top node, the
/// second the rank of its bottom node.
pub trait OrderedGraph {
    /// The graph is well formed, so that every edge has ranks.
    spec fn is_ordered(&self) -> bool;

    /// The edges of the graph by rank, in the order the graph stores them.
    spec fn ordered_edges(&self) -> Seq<Edge>;

    /// The edges of the graph by rank.
    fn get_ordered_edges(&self) -> (edges: Vec<Edge>)
        requires
            self.is_ordered(),
        ensures
            edges@ == self.ordered_edges(),
    ;
}

} // verus!
