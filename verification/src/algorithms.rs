//! The heuristics that reorder the nodes of a graph to reduce its crossings.

use vstd::prelude::*;
use crate::abscissa::ABSCISSA_LIMIT;
use crate::algorithms::barycenter_heuristic::{barycenter_heuristic_solve, iterated_barycenter_heuristic_solve};
use crate::algorithms::iteration::{counts, Heuristic};
use crate::algorithms::median_heuristic::{iterated_median_heuristic_solve, median_heuristic_solve};
use crate::bipartite_graph::{BipartiteGraph, GraphModel};
use crate::crossings::crossing_count;
use crate::graph_base::GraphError;
use crate::graphs::abscissa_graph::{
    lemma_layout_keeps_ordered_edges, lemma_model_keeps_ordered_edges, AbscissaGraph,
};

pub mod neighbors;
pub mod median_heuristic;
pub mod barycenter_heuristic;
pub mod iteration;

verus! {

/// The algorithm that `solve` applies.
#[derive(Clone, Copy, Debug, PartialEq, Eq, Structural)]
pub enum Algorithm {
    /// One pass of the median heuristic.
    Median,
    /// The median heuristic, repeated while it removes crossings.
    IterMedian,
    /// One pass of the barycenter heuristic.
    Barycenter,
    /// The barycenter heuristic, repeated while it removes crossings.
    IterBarycenter,
}

impl Algorithm {
    /// The characters of the name of the algorithm.
    pub open spec fn spec_name(&self) -> Seq<char> {
        match self {
            Algorithm::Median => "median"@,
            Algorithm::IterMedian => "iterated_median"@,
            Algorithm::Barycenter => "barycenter"@,
            Algorithm::IterBarycenter => "iterated_barycenter"@,
        }
    }

    /// The name of the algorithm, as it names the directory of its analytics.
    pub fn name(&self) -> (name: String)
        ensures
            name@ == self.spec_name(),
    {
        match self {
            Algorithm::Median => "median".to_string(),
            Algorithm::IterMedian => "iterated_median".to_string(),
            Algorithm::Barycenter => "barycenter".to_string(),
            Algorithm::IterBarycenter => "iterated_barycenter".to_string(),
        }
    }
}

impl Algorithm {
    /// The algorithm repeats a heuristic while it removes crossings.
    pub open spec fn is_iterated(&self) -> bool {
        *self == Algorithm::IterMedian || *self == Algorithm::IterBarycenter
    }
}

impl GraphModel {
    /// The number of crossings of the drawing in which the nodes of each
    /// layer stand in the order of their indices.
    pub open spec fn crossings(&self) -> nat {
        crossing_count(self.ordered_edges())
    }

    /// The graph that `algorithm` makes of this one.
    pub open spec fn solved(&self, algorithm: Algorithm) -> GraphModel {
        match algorithm {
            Algorithm::Median => self.to_layout().median_step().to_model(),
            Algorithm::IterMedian => self.to_layout().iterated(Heuristic::Median).to_model(),
            Algorithm::Barycenter => self.to_layout().barycenter_step().to_model(),
            Algorithm::IterBarycenter => self.to_layout().iterated(Heuristic::Barycenter).to_model(),
        }
    }

    /// The crossing counts that `algorithm` reports on this graph: one after
    /// every pass of an iterated heuristic, none for a single pass.
    pub open spec fn progress(&self, algorithm: Algorithm) -> Seq<nat> {
        match algorithm {
            Algorithm::Median => Seq::empty(),
            Algorithm::IterMedian => self.to_layout().trace(Heuristic::Median),
            Algorithm::Barycenter => Seq::empty(),
            Algorithm::IterBarycenter => self.to_layout().trace(Heuristic::Barycenter),
        }
    }
}

/// Solves a bipartite graph with the given algorithm.
///
/// The graph is given abscissas, the heuristic moves them, and the nodes are
/// numbered again by the order in which it leaves them. Besides the solution
/// the result holds the number of crossings after every pass of an iterated
/// heuristic, if `verbose` is set, and nothing otherwise. An iterated
/// heuristic never leaves more crossings than it found; a single pass may.
///
/// Fails with `IndexOutOfRange` when an edge of `graph` names a node outside
/// its layer.
pub fn solve(graph: &BipartiteGraph, algorithm: &Algorithm, verbose: bool) -> (result: Result<
    (BipartiteGraph, Vec<u64>),
    GraphError,
>)
    requires
        graph@.top_count <= ABSCISSA_LIMIT,
        graph@.bottom_count <= ABSCISSA_LIMIT,
        *algorithm != Algorithm::Median ==> graph@.edges.len() <= u32::MAX,
    ensures
        match result {
            Ok((solution, report)) => {
                &&& graph@.valid()
                &&& solution@ == graph@.solved(*algorithm)
                &&& solution@.valid()
                &&& solution@.top_count == graph@.top_count
                &&& solution@.bottom_count == graph@.bottom_count
                &&& solution@.edges.len() == graph@.edges.len()
                &&& algorithm.is_iterated() ==> solution@.crossings() <= graph@.crossings()
                &&& verbose ==> counts(report@) == graph@.progress(*algorithm)
                &&& !verbose ==> report@.len() == 0
            },
            Err(error) => !graph@.valid() && error == GraphError::IndexOutOfRange,
        },
{
    let mut layout = match AbscissaGraph::from_bipartite(graph) {
        Ok(layout) => layout,
        Err(error) => {
            return Err(error);
        },
    };
    let report = match algorithm {
        Algorithm::Median => {
            median_heuristic_solve(&mut layout);
            Vec::new()
        },
        Algorithm::IterMedian => iterated_median_heuristic_solve(&mut layout, verbose),
        Algorithm::Barycenter => {
            barycenter_heuristic_solve(&mut layout);
            Vec::new()
        },
        Algorithm::IterBarycenter => iterated_barycenter_heuristic_solve(&mut layout, verbose),
    };
    proof {
        assert(counts(Seq::<u64>::empty()) =~= Seq::<nat>::empty());
        lemma_layout_keeps_ordered_edges(graph@);
        lemma_model_keeps_ordered_edges(layout@);
    }
    Ok((layout.to_bipartite(), report))
}

} // verus!
