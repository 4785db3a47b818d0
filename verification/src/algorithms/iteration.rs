//! Repeating a heuristic for as long as it removes crossings.

use vstd::prelude::*;
use crate::algorithms::barycenter_heuristic::barycenter_heuristic_solve;
use crate::algorithms::median_heuristic::median_heuristic_solve;
use crate::ranking::{arranged, is_sorted_order, sorted_order};
use crate::algorithms::neighbors::{lemma_no_edges_no_neighbors, neighbors, own_end};
use crate::crossings::{crossing_count, line_sweep_crossings};
use crate::graphs::abscissa_graph::{AbscissaGraph, Layout};

verus! {

/// The rule by which one pass of a heuristic moves the nodes.
#[derive(Clone, Copy, Debug, PartialEq, Eq, Structural)]
pub enum Heuristic {
    /// Every node moves to the median of its neighbours.
    Median,
    /// Every node moves to the mean of its neighbours.
    Barycenter,
}

/// The crossing counts that a run reported, as numbers.
pub open spec fn counts(report: Seq<u64>) -> Seq<nat> {
    report.map_values(|count: u64| count as nat)
}

impl Layout {
    /// The number of crossings of the drawing.
    pub open spec fn crossings(&self) -> nat {
        crossing_count(self.ordered_edges())
    }

    /// The graph after one pass of the heuristic.
    pub open spec fn stepped(&self, rule: Heuristic) -> Layout {
        match rule {
            Heuristic::Median => self.median_step(),
            Heuristic::Barycenter => self.barycenter_step(),
        }
    }

    /// The graph after one pass of the heuristic and a rebalance.
    pub open spec fn refined(&self, rule: Heuristic) -> Layout {
        self.stepped(rule).balanced()
    }

    /// The number of crossings before the pass of the iterated heuristic
    /// whose count is the one at `index` of its trace.
    pub open spec fn crossings_before(&self, rule: Heuristic, index: int) -> nat {
        if index == 0 {
            self.crossings()
        } else {
            self.trace(rule)[index - 1]
        }
    }

    /// The graph that the iterated heuristic ends with: the first one, in the
    /// sequence of refinements, that its refinement does not improve on.
    pub open spec fn iterated(&self, rule: Heuristic) -> Layout
        decreases self.crossings(),
    {
        let next = self.refined(rule);
        if next.crossings() < self.crossings() {
            next.iterated(rule)
        } else {
            *self
        }
    }

    /// The crossing counts of the refinements that the iterated heuristic
    /// tries, the last being that of the one it discards.
    pub open spec fn trace(&self, rule: Heuristic) -> Seq<nat>
        decreases self.crossings(),
    {
        let next = self.refined(rule);
        if next.crossings() < self.crossings() {
            seq![next.crossings()] + next.trace(rule)
        } else {
            seq![next.crossings()]
        }
    }

    /// What the heuristics ask of a graph between two passes: it is well
    /// formed, its abscissas are within the limit and, in each layer,
    /// fractions of one denominator, and its edges can be counted.
    pub open spec fn ready(&self) -> bool {
        &&& self.wf()
        &&& self.fits_grid()
        &&& self.within_limit()
        &&& self.is_aligned()
        &&& self.edges.len() <= u32::MAX
    }
}

/// A node without edges keeps its abscissa in a pass of either heuristic,
/// whichever layer it is in.
pub proof fn lemma_isolated_node_keeps_abscissa(layout: Layout, rule: Heuristic, top_side: bool, node: int)
    requires
        0 <= node < if top_side {
            layout.top.len()
        } else {
            layout.bottom.len()
        },
        forall|k: int| 0 <= k < layout.edges.len() ==> own_end(#[trigger] layout.edges[k], top_side) != node,
    ensures
        top_side ==> layout.stepped(rule).top[node] == layout.top[node],
        !top_side ==> layout.stepped(rule).bottom[node] == layout.bottom[node],
{
    if top_side {
        lemma_no_edges_no_neighbors(layout.edges, layout.bottom, true, node);
        let none = neighbors(layout.edges, layout.bottom, true, node);
        assert(arranged(none, sorted_order(none)).len() == 0) by {
            assert(is_sorted_order(none, Seq::<usize>::empty()));
        }
    } else {
        lemma_no_edges_no_neighbors(layout.edges, layout.top, false, node);
        let none = neighbors(layout.edges, layout.top, false, node);
        assert(arranged(none, sorted_order(none)).len() == 0) by {
            assert(is_sorted_order(none, Seq::<usize>::empty()));
        }
    }
}

/// A pass that would put every node where it stands leaves the graph as it
/// is, and so does every pass after it.
pub proof fn lemma_fixed_point_reproduces_itself(layout: Layout, rule: Heuristic)
    requires
        forall|i: int| 0 <= i < layout.top.len() ==> #[trigger] layout.stepped(rule).top[i] == layout.top[i],
        forall|i: int|
            0 <= i < layout.bottom.len() ==> #[trigger] layout.stepped(rule).bottom[i] == layout.bottom[i],
    ensures
        layout.stepped(rule) == layout,
        layout.stepped(rule).stepped(rule) == layout.stepped(rule),
{
    assert(layout.stepped(rule).top =~= layout.top);
    assert(layout.stepped(rule).bottom =~= layout.bottom);
}

/// The crossing counts of the passes of an iterated heuristic decrease
/// strictly until the last one, which does not decrease and is undone; the
/// graph it ends with has the count of the last pass that was kept, which is
/// at most the count of the graph it started from.
pub proof fn lemma_iterated_counts_decrease(layout: Layout, rule: Heuristic)
    ensures
        layout.trace(rule).len() >= 1,
        forall|i: int|
            0 <= i < layout.trace(rule).len() - 1 ==> #[trigger] layout.trace(rule)[i] < layout.crossings_before(
                rule,
                i,
            ),
        layout.trace(rule).last() >= layout.crossings_before(rule, layout.trace(rule).len() - 1),
        layout.iterated(rule).crossings() == layout.crossings_before(rule, layout.trace(rule).len() - 1),
        layout.iterated(rule).crossings() <= layout.crossings(),
    decreases layout.crossings(),
{
    let next = layout.refined(rule);
    let trace = layout.trace(rule);
    if next.crossings() < layout.crossings() {
        lemma_iterated_counts_decrease(next, rule);
        let rest = next.trace(rule);
        assert(trace == seq![next.crossings()] + rest);
        assert forall|i: int| 0 <= i < trace.len() - 1 implies #[trigger] trace[i] < layout.crossings_before(
            rule,
            i,
        ) by {
            if i > 0 {
                assert(trace[i] == rest[i - 1]);
                assert(rest[i - 1] < next.crossings_before(rule, i - 1));
                if i > 1 {
                    assert(trace[i - 1] == rest[i - 2]);
                }
            }
        }
        let last = trace.len() - 1;
        assert(trace[last] == rest[last - 1]);
        if last > 1 {
            assert(trace[last - 1] == rest[last - 2]);
        }
    }
}

/// One pass of the heuristic and a rebalance.
pub fn refine(graph: &mut AbscissaGraph, rule: Heuristic)
    requires
        old(graph)@.ready(),
    ensures
        final(graph)@ == old(graph)@.refined(rule),
        final(graph)@.ready(),
        final(graph)@.same_graph_as(old(graph)@),
{
    match rule {
        Heuristic::Median => median_heuristic_solve(graph),
        Heuristic::Barycenter => barycenter_heuristic_solve(graph),
    }
    graph.rebalance_abscissas();
}

/// Repeats the heuristic, each pass followed by a rebalance, for as long as
/// the number of crossings decreases.
///
/// The pass that does not decrease the number of crossings is undone, so the
/// graph ends as the last improvement left it. The result lists the number of
/// crossings after every pass, the undone one included, if `verbose` is set,
/// and nothing otherwise.
pub fn iterate_heuristic(graph: &mut AbscissaGraph, rule: Heuristic, verbose: bool) -> (report: Vec<u64>)
    requires
        old(graph)@.ready(),
    ensures
        final(graph)@ == old(graph)@.iterated(rule),
        final(graph)@.ready(),
        final(graph)@.same_graph_as(old(graph)@),
        final(graph)@.crossings() <= old(graph)@.crossings(),
        verbose ==> counts(report@) == old(graph)@.trace(rule),
        !verbose ==> report@.len() == 0,
{
    let mut crossings = line_sweep_crossings(graph);
    let mut report: Vec<u64> = Vec::new();
    let mut improving = true;
    proof {
        assert(counts(report@) + graph@.trace(rule) =~= graph@.trace(rule));
    }
    while improving
        invariant
            graph@.ready(),
            graph@.same_graph_as(old(graph)@),
            crossings == graph@.crossings(),
            graph@.crossings() <= old(graph)@.crossings(),
            graph@.iterated(rule) == old(graph)@.iterated(rule),
            improving ==> !verbose || counts(report@) + graph@.trace(rule) == old(graph)@.trace(rule),
            !improving ==> graph@ == old(graph)@.iterated(rule),
            !improving ==> !verbose || counts(report@) == old(graph)@.trace(rule),
            !verbose ==> report@.len() == 0,
        decreases
                if improving {
                    crossings + 1
                } else {
                    0
                },
    {
        let previous_graph = graph.clone();
        let ghost before = graph@;
        let ghost reported = report@;
        refine(graph, rule);
        let new_crossings = line_sweep_crossings(graph);
        if verbose {
            report.push(new_crossings);
            proof {
                assert(counts(report@) =~= counts(reported) + seq![new_crossings as nat]);
            }
        }
        if new_crossings < crossings {
            crossings = new_crossings;
            proof {
                if verbose {
                    assert(counts(report@) + graph@.trace(rule) =~= counts(reported) + before.trace(rule));
                }
            }
        } else {
            *graph = previous_graph;
            improving = false;
            proof {
                if verbose {
                    assert(counts(report@) =~= counts(reported) + before.trace(rule));
                }
            }
        }
    }
    report
}

} // verus!
