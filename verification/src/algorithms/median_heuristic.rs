//! The median heuristic: every node moves to the median of its neighbours.

use vstd::prelude::*;
use crate::abscissa::Abscissa;
use crate::algo_utils::{arrange, median_of, sorted_array_median, sorted_index_array};
use crate::ranking::{arranged, sorted_order};
use crate::algorithms::iteration::{counts, iterate_heuristic, Heuristic};
use crate::algorithms::neighbors::{collect_neighbors, lemma_edges_within_layers, lemma_neighbors_keep, neighbors};
use crate::graphs::abscissa_graph::{AbscissaGraph, Layout};
use crate::sort_key::SortKey;

verus! {

/// Where the median heuristic puts a node: at the median of the abscissas of
/// its neighbours, sorted; a node without neighbours stays where it is.
pub open spec fn median_abscissa(neighbors: Seq<Abscissa>, current: Abscissa) -> Abscissa {
    match median_of(arranged(neighbors, sorted_order(neighbors))) {
        Some(median) => median,
        None => current,
    }
}

impl Layout {
    /// The graph after one pass of the median heuristic: every node stands at
    /// the median of the abscissas that its neighbours had before the pass.
    pub open spec fn median_step(&self) -> Layout {
        Layout {
            top: Seq::new(
                self.top.len(),
                |i: int| median_abscissa(neighbors(self.edges, self.bottom, true, i), self.top[i]),
            ),
            bottom: Seq::new(
                self.bottom.len(),
                |i: int| median_abscissa(neighbors(self.edges, self.top, false, i), self.bottom[i]),
            ),
            edges: self.edges,
        }
    }
}

/// The new abscissa of every node of a layer, from the abscissas of its
/// neighbours.
fn median_abscissas(rows: &Vec<Vec<Abscissa>>, current: &Vec<Abscissa>) -> (updated: Vec<Abscissa>)
    requires
        rows.len() == current.len(),
        forall|i: int| 0 <= i < current.len() ==> (#[trigger] current[i]).wf(),
        forall|i: int, k: int|
            0 <= i < rows.len() && 0 <= k < rows[i]@.len() ==> (#[trigger] rows[i]@[k]).within_limit(),
    ensures
        updated.len() == current.len(),
        forall|i: int|
            0 <= i < current.len() ==> (#[trigger] updated[i]) == median_abscissa(rows[i]@, current[i])
                && updated[i].wf(),
{
    let mut updated: Vec<Abscissa> = Vec::new();
    let mut i: usize = 0;
    while i < rows.len()
        invariant
            i <= rows.len(),
            rows.len() == current.len(),
            updated.len() == i,
            forall|l: int| 0 <= l < current.len() ==> (#[trigger] current[l]).wf(),
            forall|l: int, k: int|
                0 <= l < rows.len() && 0 <= k < rows[l]@.len() ==> (#[trigger] rows[l]@[k]).within_limit(),
            forall|l: int|
                0 <= l < i ==> (#[trigger] updated[l]) == median_abscissa(rows[l]@, current[l]) && updated[l].wf(),
        decreases rows.len() - i,
    {
        let row = &rows[i];
        proof {
            assert forall|k: int| 0 <= k < row@.len() implies (#[trigger] row@[k]).valid() by {
                assert(rows[i as int]@[k].within_limit());
            }
        }
        let order = sorted_index_array(row.as_slice());
        let sorted = arrange(row, &order);
        proof {
            assert forall|k: int| 0 <= k < sorted@.len() implies (#[trigger] sorted@[k]).within_limit() by {
                assert(rows[i as int]@[order@[k] as int].within_limit());
            }
        }
        let position = match sorted_array_median(sorted.as_slice()) {
            Some(median) => median,
            None => current[i],
        };
        updated.push(position);
        i += 1;
    }
    updated
}

/// One pass of the median heuristic on a graph in which every node has an
/// abscissa.
///
/// Every node, top or bottom, moves to the median of the abscissas of its
/// neighbours: the middle one if their number is odd, the midpoint of the two
/// middle ones if it is even. A node without neighbours keeps its abscissa.
/// All nodes move at once: the medians are taken over the abscissas before the
/// pass.
///
/// The abscissas should be rebalanced before the graph is displayed or
/// passed to the heuristic again.
pub fn median_heuristic_solve(graph: &mut AbscissaGraph)
    requires
        old(graph)@.wf(),
        old(graph)@.within_limit(),
    ensures
        final(graph)@ == old(graph)@.median_step(),
        final(graph)@.wf(),
        final(graph)@.same_graph_as(old(graph)@),
{
    proof {
        lemma_edges_within_layers(graph@);
    }
    let top_neighbors = collect_neighbors(
        &graph.edges,
        graph.top_nodes_abscissas.len(),
        &graph.bottom_nodes_abscissas,
        true,
    );
    let bottom_neighbors = collect_neighbors(
        &graph.edges,
        graph.bottom_nodes_abscissas.len(),
        &graph.top_nodes_abscissas,
        false,
    );
    proof {
        let within = |abscissa: Abscissa| abscissa.within_limit();
        assert forall|i: int, k: int|
            0 <= i < top_neighbors.len() && 0 <= k < top_neighbors[i]@.len() implies (
        #[trigger] top_neighbors[i]@[k]).within_limit() by {
            lemma_neighbors_keep(graph@.edges, graph@.bottom, true, i, graph@.top.len() as int, within);
        }
        assert forall|i: int, k: int|
            0 <= i < bottom_neighbors.len() && 0 <= k < bottom_neighbors[i]@.len() implies (
        #[trigger] bottom_neighbors[i]@[k]).within_limit() by {
            lemma_neighbors_keep(graph@.edges, graph@.top, false, i, graph@.bottom.len() as int, within);
        }
    }
    let top_x = median_abscissas(&top_neighbors, &graph.top_nodes_abscissas);
    let bottom_x = median_abscissas(&bottom_neighbors, &graph.bottom_nodes_abscissas);
    graph.top_nodes_abscissas = top_x;
    graph.bottom_nodes_abscissas = bottom_x;
    proof {
        assert(graph@.top =~= old(graph)@.median_step().top);
        assert(graph@.bottom =~= old(graph)@.median_step().bottom);
        assert forall|k: int| 0 <= k < graph@.edges.len() implies (#[trigger] graph@.edges[k]).0 < graph@.top.len()
            && graph@.edges[k].1 < graph@.bottom.len() by {
            assert(old(graph)@.edges[k].0 < old(graph)@.top.len());
        }
    }
}

/// Repeats the median heuristic on a graph in which every node has an
/// abscissa, and stops when the number of crossings stops decreasing.
///
/// The crossings are counted first. Then every node moves to the median of
/// its neighbours, the abscissas are rebalanced, and the crossings are
/// counted again; this is repeated while the count decreases. The pass that
/// does not decrease it is undone.
///
/// The result lists the number of crossings after every pass, the undone one
/// included, if `verbose` is set, and nothing otherwise.
pub fn iterated_median_heuristic_solve(graph: &mut AbscissaGraph, verbose: bool) -> (report: Vec<u64>)
    requires
        old(graph)@.ready(),
    ensures
        final(graph)@ == old(graph)@.iterated(Heuristic::Median),
        final(graph)@.ready(),
        final(graph)@.same_graph_as(old(graph)@),
        final(graph)@.crossings() <= old(graph)@.crossings(),
        verbose ==> counts(report@) == old(graph)@.trace(Heuristic::Median),
        !verbose ==> report@.len() == 0,
{
    iterate_heuristic(graph, Heuristic::Median, verbose)
}

} // verus!
