//! The barycenter heuristic: every node moves to the mean of its neighbours.

use vstd::prelude::*;
use crate::abscissa::{Abscissa, ABSCISSA_LIMIT};
use crate::algorithms::iteration::{counts, iterate_heuristic, Heuristic};
use crate::algorithms::neighbors::{collect_neighbors, lemma_edges_within_layers, lemma_neighbors_keep, neighbors};
use crate::graphs::abscissa_graph::{AbscissaGraph, Layout};

verus! {

/// The sum of the numerators of a sequence of abscissas.
pub open spec fn sum_of_numerators(abscissas: Seq<Abscissa>) -> int
    decreases abscissas.len(),
{
    if abscissas.len() == 0 {
        0
    } else {
        sum_of_numerators(abscissas.drop_last()) + abscissas.last().num
    }
}

/// Where the barycenter heuristic puts a node whose neighbours have abscissas
/// of one denominator: at their arithmetic mean, the sum of their numerators
/// over their number times that denominator. A node without neighbours stays
/// where it is.
pub open spec fn mean_abscissa(neighbors: Seq<Abscissa>, current: Abscissa) -> Abscissa {
    if neighbors.len() == 0 {
        current
    } else {
        Abscissa { num: sum_of_numerators(neighbors) as i64, den: (neighbors.len() * neighbors[0].den) as i64 }
    }
}

impl Layout {
    /// The graph after one pass of the barycenter heuristic: every node stands
    /// at the mean of the abscissas that its neighbours had before the pass.
    pub open spec fn barycenter_step(&self) -> Layout {
        Layout {
            top: Seq::new(
                self.top.len(),
                |i: int| mean_abscissa(neighbors(self.edges, self.bottom, true, i), self.top[i]),
            ),
            bottom: Seq::new(
                self.bottom.len(),
                |i: int| mean_abscissa(neighbors(self.edges, self.top, false, i), self.bottom[i]),
            ),
            edges: self.edges,
        }
    }
}

/// The mean of abscissas of one denominator, or `current` if there is none.
fn mean_of_row(row: &Vec<Abscissa>, current: Abscissa) -> (mean: Abscissa)
    requires
        current.wf(),
        row.len() <= u32::MAX,
        forall|k: int| 0 <= k < row.len() ==> (#[trigger] row[k]).within_limit() && row[k].den == row[0].den,
    ensures
        mean == mean_abscissa(row@, current),
        mean.wf(),
{
    if row.len() == 0 {
        return current;
    }
    let mut sum: i64 = 0;
    let mut k: usize = 0;
    while k < row.len()
        invariant
            k <= row.len() <= u32::MAX,
            forall|l: int| 0 <= l < row.len() ==> (#[trigger] row[l]).within_limit(),
            sum == sum_of_numerators(row@.take(k as int)),
            -k * ABSCISSA_LIMIT <= sum <= k * ABSCISSA_LIMIT,
        decreases row.len() - k,
    {
        proof {
            assert(row@.take(k + 1).drop_last() == row@.take(k as int));
            assert(row[k as int].within_limit());
            assert((k + 1) * ABSCISSA_LIMIT == k * ABSCISSA_LIMIT + ABSCISSA_LIMIT) by (nonlinear_arith);
            assert(k * ABSCISSA_LIMIT <= 0xFFFF_FFFF * 0x4000_0000) by (nonlinear_arith)
                requires
                    0 <= k <= 0xFFFF_FFFF,
                    ABSCISSA_LIMIT == 0x4000_0000,
            ;
        }
        sum = sum + row[k].num;
        k += 1;
    }
    let count = row.len() as i64;
    let den = row[0].den;
    proof {
        assert(row@.take(k as int) == row@);
        assert(row[0].within_limit());
        assert(0 < count * den <= 0xFFFF_FFFF * 0x4000_0000) by (nonlinear_arith)
            requires
                0 < count <= 0xFFFF_FFFF,
                0 < den <= 0x4000_0000,
        ;
    }
    Abscissa { num: sum, den: count * den }
}

/// The new abscissa of every node of a layer, from the abscissas of its
/// neighbours.
fn mean_abscissas(rows: &Vec<Vec<Abscissa>>, current: &Vec<Abscissa>) -> (updated: Vec<Abscissa>)
    requires
        rows.len() == current.len(),
        forall|i: int| 0 <= i < current.len() ==> (#[trigger] current[i]).wf(),
        forall|i: int| 0 <= i < rows.len() ==> (#[trigger] rows[i])@.len() <= u32::MAX,
        forall|i: int, k: int|
            0 <= i < rows.len() && 0 <= k < rows[i]@.len() ==> (#[trigger] rows[i]@[k]).within_limit()
                && rows[i]@[k].den == rows[i]@[0].den,
    ensures
        updated.len() == current.len(),
        forall|i: int|
            0 <= i < current.len() ==> (#[trigger] updated[i]) == mean_abscissa(rows[i]@, current[i])
                && updated[i].wf(),
{
    let mut updated: Vec<Abscissa> = Vec::new();
    let mut i: usize = 0;
    while i < rows.len()
        invariant
            i <= rows.len(),
            rows.len() == current.len(),
            updated.len() == i,
            forall|l: int| 0 <= l < current.len() ==> (#[trigger] current[l]).wf(),
            forall|l: int| 0 <= l < rows.len() ==> (#[trigger] rows[l])@.len() <= u32::MAX,
            forall|l: int, k: int|
                0 <= l < rows.len() && 0 <= k < rows[l]@.len() ==> (#[trigger] rows[l]@[k]).within_limit()
                    && rows[l]@[k].den == rows[l]@[0].den,
            forall|l: int|
                0 <= l < i ==> (#[trigger] updated[l]) == mean_abscissa(rows[l]@, current[l]) && updated[l].wf(),
        decreases rows.len() - i,
    {
        let row = &rows[i];
        proof {
            assert(rows[i as int]@.len() <= u32::MAX);
            assert forall|k: int| 0 <= k < row.len() implies (#[trigger] row[k]).within_limit() && row[k].den
                == row[0].den by {
                assert(rows[i as int]@[k].within_limit());
            }
        }
        updated.push(mean_of_row(row, current[i]));
        i += 1;
    }
    updated
}

/// One pass of the barycenter heuristic on a graph in which every node has
/// an abscissa.
///
/// Every node, top or bottom, moves to the mean of the abscissas of its
/// neighbours. A node without neighbours keeps its abscissa. All nodes move
/// at once: the means are taken over the abscissas before the pass.
///
/// The abscissas of each layer must be fractions of one denominator, as they
/// are after a rebalance: the mean is then exact. They should be rebalanced
/// before the graph is displayed or passed to the heuristic again.
pub fn barycenter_heuristic_solve(graph: &mut AbscissaGraph)
    requires
        old(graph)@.wf(),
        old(graph)@.within_limit(),
        old(graph)@.is_aligned(),
        old(graph)@.edges.len() <= u32::MAX,
    ensures
        final(graph)@ == old(graph)@.barycenter_step(),
        final(graph)@.wf(),
        final(graph)@.same_graph_as(old(graph)@),
{
    proof {
        lemma_edges_within_layers(graph@);
    }
    let top_neighbors = collect_neighbors(
        &graph.edges,
        graph.top_nodes_abscissas.len(),
        &graph.bottom_nodes_abscissas,
        true,
    );
    let bottom_neighbors = collect_neighbors(
        &graph.edges,
        graph.bottom_nodes_abscissas.len(),
        &graph.top_nodes_abscissas,
        false,
    );
    proof {
        let bottom = graph@.bottom;
        let top = graph@.top;
        let like_bottom = |abscissa: Abscissa| abscissa.within_limit() && abscissa.den == bottom[0].den;
        let like_top = |abscissa: Abscissa| abscissa.within_limit() && abscissa.den == top[0].den;
        assert forall|i: int| 0 <= i < top_neighbors.len() implies (#[trigger] top_neighbors[i])@.len()
            <= u32::MAX && (forall|k: int|
            0 <= k < top_neighbors[i]@.len() ==> (#[trigger] top_neighbors[i]@[k]).within_limit()
                && top_neighbors[i]@[k].den == top_neighbors[i]@[0].den) by {
            lemma_neighbors_keep(graph@.edges, bottom, true, i, top.len() as int, like_bottom);
            assert forall|k: int| 0 <= k < top_neighbors[i]@.len() implies (
            #[trigger] top_neighbors[i]@[k]).within_limit() && top_neighbors[i]@[k].den
                == top_neighbors[i]@[0].den by {
                assert(like_bottom(top_neighbors[i]@[k]));
                assert(like_bottom(top_neighbors[i]@[0]));
            }
        }
        assert forall|i: int| 0 <= i < bottom_neighbors.len() implies (#[trigger] bottom_neighbors[i])@.len()
            <= u32::MAX && (forall|k: int|
            0 <= k < bottom_neighbors[i]@.len() ==> (#[trigger] bottom_neighbors[i]@[k]).within_limit()
                && bottom_neighbors[i]@[k].den == bottom_neighbors[i]@[0].den) by {
            lemma_neighbors_keep(graph@.edges, top, false, i, bottom.len() as int, like_top);
            assert forall|k: int| 0 <= k < bottom_neighbors[i]@.len() implies (
            #[trigger] bottom_neighbors[i]@[k]).within_limit() && bottom_neighbors[i]@[k].den
                == bottom_neighbors[i]@[0].den by {
                assert(like_top(bottom_neighbors[i]@[k]));
                assert(like_top(bottom_neighbors[i]@[0]));
            }
        }
    }
    let top_x = mean_abscissas(&top_neighbors, &graph.top_nodes_abscissas);
    let bottom_x = mean_abscissas(&bottom_neighbors, &graph.bottom_nodes_abscissas);
    graph.top_nodes_abscissas = top_x;
    graph.bottom_nodes_abscissas = bottom_x;
    proof {
        assert(graph@.top =~= old(graph)@.barycenter_step().top);
        assert(graph@.bottom =~= old(graph)@.barycenter_step().bottom);
        assert forall|k: int| 0 <= k < graph@.edges.len() implies (#[trigger] graph@.edges[k]).0 < graph@.top.len()
            && graph@.edges[k].1 < graph@.bottom.len() by {
            assert(old(graph)@.edges[k].0 < old(graph)@.top.len());
        }
    }
}

/// Repeats the barycenter heuristic on a graph in which every node has an
/// abscissa, and stops when the number of crossings stops decreasing.
///
/// The crossings are counted first. Then every node moves to the mean of its
/// neighbours, the abscissas are rebalanced, and the crossings are counted
/// again; this is repeated while the count decreases. The pass that does not
/// decrease it is undone.
///
/// The result lists the number of crossings after every pass, the undone one
/// included, if `verbose` is set, and nothing otherwise.
pub fn iterated_barycenter_heuristic_solve(graph: &mut AbscissaGraph, verbose: bool) -> (report: Vec<u64>)
    requires
        old(graph)@.ready(),
    ensures
        final(graph)@ == old(graph)@.iterated(Heuristic::Barycenter),
        final(graph)@.ready(),
        final(graph)@.same_graph_as(old(graph)@),
        final(graph)@.crossings() <= old(graph)@.crossings(),
        verbose ==> counts(report@) == old(graph)@.trace(Heuristic::Barycenter),
        !verbose ==> report@.len() == 0,
{
    iterate_heuristic(graph, Heuristic::Barycenter, verbose)
}

} // verus!
