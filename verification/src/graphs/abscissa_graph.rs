//! The graph as the heuristics work on it: every node has an abscissa.

use vstd::prelude::*;
use crate::abscissa::{Abscissa, ABSCISSA_LIMIT};
use crate::algo_utils::rank_index_array;
use crate::ranking::{
    all_valid, comes_before, is_permutation, is_rank_array, lemma_orders_exist,
    lemma_rank_array_is_permutation, lemma_rank_array_unique, rank_order,
};
use crate::bipartite_graph::{BipartiteGraph, GraphModel};
use crate::graph_base::{copy_edges, Edge, GraphError, OrderedGraph};
use crate::sort_key::SortKey;

verus! {

/// A two-layer graph in which every node has an abscissa.
///
/// Nodes are numbered from 0 in each layer, by identity and not by abscissa:
/// the order of a layer from left to right is the ascending order of its
/// abscissas, nodes of equal abscissa standing by ascending index. Evenly
/// spaced abscissas are restored by `rebalance_abscissas`: the nodes of each
/// layer are then centred on 0, and the outermost nodes of the longer layer
/// lie within -1 and +1.
#[derive(Debug)]
pub struct AbscissaGraph {
    /// Abscissas for the top nodes. Their indices start from 0.
    pub top_nodes_abscissas: Vec<Abscissa>,
    /// Abscissas for the bottom nodes. Their indices start from 0.
    pub bottom_nodes_abscissas: Vec<Abscissa>,
    /// Edges between the top and bottom nodes.
    pub edges: Vec<Edge>,
}

/// The mathematical content of an `AbscissaGraph`.
pub ghost struct Layout {
    pub top: Seq<Abscissa>,
    pub bottom: Seq<Abscissa>,
    pub edges: Seq<Edge>,
}

/// The abscissa of the node of rank `rank` in a layer of `side` nodes, where
/// the longer layer has `longest` nodes: `rank * scale + offset` with
/// `scale = 2 / longest` and `offset = -side * scale / 2`.
pub open spec fn grid_abscissa(rank: int, side: int, longest: int) -> Abscissa {
    Abscissa { num: (2 * rank - side) as i64, den: longest as i64 }
}

/// The evenly spaced abscissas of a layer whose nodes have the given ranks.
pub open spec fn spread(ranks: Seq<usize>, longest: int) -> Seq<Abscissa> {
    Seq::new(ranks.len(), |i: int| grid_abscissa(ranks[i] as int, ranks.len() as int, longest))
}

/// The ranks of a layer whose nodes stand in the order of their indices.
pub open spec fn identity_ranks(n: nat) -> Seq<usize> {
    Seq::new(n, |i: int| i as usize)
}

impl Layout {
    /// Every abscissa has a positive denominator and every edge joins a top
    /// node to a bottom node.
    pub open spec fn wf(&self) -> bool {
        &&& self.top.len() <= usize::MAX
        &&& self.bottom.len() <= usize::MAX
        &&& all_valid(self.top)
        &&& all_valid(self.bottom)
        &&& forall|k: int|
            0 <= k < self.edges.len() ==> (#[trigger] self.edges[k]).0 < self.top.len() && self.edges[k].1
                < self.bottom.len()
    }

    /// Every abscissa is within the limit on which the heuristics compute.
    pub open spec fn within_limit(&self) -> bool {
        &&& forall|i: int| 0 <= i < self.top.len() ==> (#[trigger] self.top[i]).within_limit()
        &&& forall|i: int| 0 <= i < self.bottom.len() ==> (#[trigger] self.bottom[i]).within_limit()
    }

    /// The abscissas of each layer are fractions of one denominator.
    pub open spec fn is_aligned(&self) -> bool {
        &&& forall|i: int| 0 <= i < self.top.len() ==> (#[trigger] self.top[i]).den == self.top[0].den
        &&& forall|i: int| 0 <= i < self.bottom.len() ==> (#[trigger] self.bottom[i]).den == self.bottom[0].den
    }

    /// Neither layer has more nodes than the grid of abscissas can number.
    pub open spec fn fits_grid(&self) -> bool {
        self.top.len() <= ABSCISSA_LIMIT && self.bottom.len() <= ABSCISSA_LIMIT
    }

    /// The graph has the nodes and the edges of `other`; only abscissas may
    /// differ.
    pub open spec fn same_graph_as(&self, other: Layout) -> bool {
        &&& self.top.len() == other.top.len()
        &&& self.bottom.len() == other.bottom.len()
        &&& self.edges == other.edges
    }

    /// The number of nodes of the longer layer.
    pub open spec fn longest(&self) -> int {
        if self.top.len() >= self.bottom.len() {
            self.top.len() as int
        } else {
            self.bottom.len() as int
        }
    }

    /// The same graph with the nodes of each layer evenly spaced in their
    /// order from left to right.
    pub open spec fn balanced(&self) -> Layout {
        Layout {
            top: spread(rank_order(self.top), self.longest()),
            bottom: spread(rank_order(self.bottom), self.longest()),
            edges: self.edges,
        }
    }

    /// The nodes of each layer are evenly spaced in their order from left to
    /// right: a rebalance would leave the graph as it is.
    pub open spec fn is_balanced(&self) -> bool {
        self.balanced() == *self
    }

    /// The edges by the ranks of their endpoints.
    pub open spec fn ordered_edges(&self) -> Seq<Edge> {
        Seq::new(
            self.edges.len(),
            |k: int|
                (
                    rank_order(self.top)[self.edges[k].0 as int] as u64,
                    rank_order(self.bottom)[self.edges[k].1 as int] as u64,
                ),
        )
    }

    /// The exchanged form of the graph: every node is numbered by its rank,
    /// top nodes from 1 and bottom nodes from one more than their count.
    pub open spec fn to_model(&self) -> GraphModel {
        GraphModel {
            top_count: self.top.len(),
            bottom_count: self.bottom.len(),
            edges: Seq::new(
                self.edges.len(),
                |k: int|
                    (
                        (rank_order(self.top)[self.edges[k].0 as int] + 1) as u64,
                        (rank_order(self.bottom)[self.edges[k].1 as int] + 1 + self.top.len()) as u64,
                    ),
            ),
        }
    }
}

impl GraphModel {
    /// The working form of the graph: nodes numbered from 0 in each layer and
    /// evenly spaced in the order of their indices.
    pub open spec fn to_layout(&self) -> Layout {
        let longest = if self.top_count >= self.bottom_count {
            self.top_count as int
        } else {
            self.bottom_count as int
        };
        Layout {
            top: spread(identity_ranks(self.top_count), longest),
            bottom: spread(identity_ranks(self.bottom_count), longest),
            edges: self.ordered_edges(),
        }
    }
}

impl View for AbscissaGraph {
    type V = Layout;

    open spec fn view(&self) -> Layout {
        Layout { top: self.top_nodes_abscissas@, bottom: self.bottom_nodes_abscissas@, edges: self.edges@ }
    }
}

/// Evenly spaced nodes stand in the order of the ranks they were spaced by.
pub proof fn lemma_spread_keeps_ranks(ranks: Seq<usize>, longest: int)
    requires
        is_permutation(ranks),
        ranks.len() <= longest <= ABSCISSA_LIMIT,
    ensures
        all_valid(spread(ranks, longest)),
        is_rank_array(spread(ranks, longest), ranks),
        rank_order(spread(ranks, longest)) == ranks,
{
    let s = spread(ranks, longest);
    let n = ranks.len() as int;
    assert forall|i: int| 0 <= i < s.len() implies (#[trigger] s[i]).valid() by {
        assert(ranks[i] < n);
    }
    assert forall|i: int, j: int| 0 <= i < ranks.len() && 0 <= j < ranks.len() implies (#[trigger] ranks[i]
        < #[trigger] ranks[j] <==> comes_before(s, i, j)) by {
        let (a, b) = (ranks[i] as int, ranks[j] as int);
        assert(a < n && b < n);
        assert(s[i].num == 2 * a - n && s[j].num == 2 * b - n);
        assert(s[i].den == longest && s[j].den == longest);
        assert(a < b <==> (2 * a - n) * longest < (2 * b - n) * longest) by (nonlinear_arith)
            requires
                longest > 0,
        ;
        assert(b < a <==> (2 * b - n) * longest < (2 * a - n) * longest) by (nonlinear_arith)
            requires
                longest > 0,
        ;
        if i < j {
            assert(ranks[i] != ranks[j]);
        } else if j < i {
            assert(ranks[j] != ranks[i]);
        }
    }
    lemma_rank_array_unique(s, ranks);
}

/// A rebalance leaves a rebalanced graph as it is: rebalancing twice gives
/// the same layout as rebalancing once.
pub proof fn lemma_rebalance_idempotent(layout: Layout)
    requires
        layout.wf(),
        layout.fits_grid(),
    ensures
        layout.balanced().balanced() == layout.balanced(),
        layout.balanced().is_balanced(),
{
    lemma_orders_exist(layout.top);
    lemma_orders_exist(layout.bottom);
    lemma_rank_array_is_permutation(layout.top, rank_order(layout.top));
    lemma_rank_array_is_permutation(layout.bottom, rank_order(layout.bottom));
    lemma_spread_keeps_ranks(rank_order(layout.top), layout.longest());
    lemma_spread_keeps_ranks(rank_order(layout.bottom), layout.longest());
    assert(layout.balanced().longest() == layout.longest());
}

/// A rebalance moves no node past another: the ranks of the nodes, and so
/// the ordered edges, the exchanged form and the crossings of the graph, are
/// what they were.
pub proof fn lemma_rebalance_keeps_order(layout: Layout)
    requires
        layout.wf(),
        layout.fits_grid(),
    ensures
        rank_order(layout.balanced().top) == rank_order(layout.top),
        rank_order(layout.balanced().bottom) == rank_order(layout.bottom),
        layout.balanced().ordered_edges() == layout.ordered_edges(),
        layout.balanced().to_model() == layout.to_model(),
{
    lemma_orders_exist(layout.top);
    lemma_orders_exist(layout.bottom);
    lemma_rank_array_is_permutation(layout.top, rank_order(layout.top));
    lemma_rank_array_is_permutation(layout.bottom, rank_order(layout.bottom));
    lemma_spread_keeps_ranks(rank_order(layout.top), layout.longest());
    lemma_spread_keeps_ranks(rank_order(layout.bottom), layout.longest());
    assert(layout.balanced().ordered_edges() =~= layout.ordered_edges());
    assert(layout.balanced().to_model().edges =~= layout.to_model().edges);
}

/// The ranks of a layer whose nodes stand in the order of their indices
/// list every rank once.
pub proof fn lemma_identity_ranks_is_permutation(n: nat)
    requires
        n <= usize::MAX,
    ensures
        is_permutation(identity_ranks(n)),
{
    assert forall|k: usize| k < n implies #[trigger] identity_ranks(n).contains(k) by {
        assert(identity_ranks(n)[k as int] == k);
    }
}

/// Giving a valid graph abscissas and numbering its nodes again by their
/// order gives the graph back: its node counts and its edges, each with the
/// indices it had.
pub proof fn lemma_round_trip(model: GraphModel)
    requires
        model.valid(),
        model.top_count <= ABSCISSA_LIMIT,
        model.bottom_count <= ABSCISSA_LIMIT,
    ensures
        model.to_layout().wf(),
        model.to_layout().to_model() == model,
{
    let layout = model.to_layout();
    lemma_identity_ranks_is_permutation(model.top_count);
    lemma_identity_ranks_is_permutation(model.bottom_count);
    lemma_spread_keeps_ranks(identity_ranks(model.top_count), layout.longest());
    lemma_spread_keeps_ranks(identity_ranks(model.bottom_count), layout.longest());
    assert forall|k: int| 0 <= k < layout.edges.len() implies (#[trigger] layout.edges[k]).0 < layout.top.len()
        && layout.edges[k].1 < layout.bottom.len() by {
        assert(model.has_edge_in_range(model.edges[k]));
    }
    assert forall|k: int| 0 <= k < model.edges.len() implies #[trigger] layout.to_model().edges[k]
        == model.edges[k] by {
        assert(model.has_edge_in_range(model.edges[k]));
    }
    assert(layout.to_model().edges =~= model.edges);
}

/// Giving a valid graph abscissas keeps the order of its nodes: the edges by
/// rank are what they were.
pub proof fn lemma_layout_keeps_ordered_edges(model: GraphModel)
    requires
        model.valid(),
        model.top_count <= ABSCISSA_LIMIT,
        model.bottom_count <= ABSCISSA_LIMIT,
    ensures
        model.to_layout().ordered_edges() == model.ordered_edges(),
{
    let layout = model.to_layout();
    lemma_identity_ranks_is_permutation(model.top_count);
    lemma_identity_ranks_is_permutation(model.bottom_count);
    lemma_spread_keeps_ranks(identity_ranks(model.top_count), layout.longest());
    lemma_spread_keeps_ranks(identity_ranks(model.bottom_count), layout.longest());
    assert forall|k: int| 0 <= k < model.edges.len() implies #[trigger] layout.ordered_edges()[k]
        == model.ordered_edges()[k] by {
        assert(model.has_edge_in_range(model.edges[k]));
    }
    assert(layout.ordered_edges() =~= model.ordered_edges());
}

/// Numbering the nodes of a graph by their order keeps that order: the
/// exchanged form is valid, and its edges by rank are those of the graph.
pub proof fn lemma_model_keeps_ordered_edges(layout: Layout)
    requires
        layout.wf(),
        layout.top.len() + layout.bottom.len() <= u64::MAX,
    ensures
        layout.to_model().valid(),
        layout.to_model().ordered_edges() == layout.ordered_edges(),
{
    let model = layout.to_model();
    lemma_orders_exist(layout.top);
    lemma_orders_exist(layout.bottom);
    assert forall|k: int| 0 <= k < model.edges.len() implies model.has_edge_in_range(#[trigger] model.edges[k])
        && model.ordered_edges()[k] == layout.ordered_edges()[k] by {
        assert(layout.edges[k].0 < layout.top.len());
        assert(rank_order(layout.top)[layout.edges[k].0 as int] < layout.top.len());
        assert(rank_order(layout.bottom)[layout.edges[k].1 as int] < layout.bottom.len());
    }
    assert(model.ordered_edges() =~= layout.ordered_edges());
}

/// The abscissa of the node of rank `rank` in a layer of `side` nodes.
fn grid_position(rank: usize, side: usize, longest: usize) -> (position: Abscissa)
    requires
        rank < side <= longest <= ABSCISSA_LIMIT,
    ensures
        position == grid_abscissa(rank as int, side as int, longest as int),
        position.within_limit(),
{
    Abscissa { num: 2 * (rank as i64) - (side as i64), den: longest as i64 }
}

/// Evenly spaced abscissas for a layer whose nodes have the given ranks.
fn spread_ranks(ranks: &Vec<usize>, longest: usize) -> (positions: Vec<Abscissa>)
    requires
        ranks.len() <= longest <= ABSCISSA_LIMIT,
        forall|i: int| 0 <= i < ranks.len() ==> (#[trigger] ranks[i]) < ranks.len(),
    ensures
        positions@ == spread(ranks@, longest as int),
        forall|i: int| 0 <= i < positions.len() ==> (#[trigger] positions[i]).within_limit(),
{
    let mut positions: Vec<Abscissa> = Vec::new();
    let mut i: usize = 0;
    while i < ranks.len()
        invariant
            i <= ranks.len() <= longest <= ABSCISSA_LIMIT,
            positions.len() == i,
            forall|l: int| 0 <= l < ranks.len() ==> (#[trigger] ranks[l]) < ranks.len(),
            forall|l: int|
                0 <= l < i ==> (#[trigger] positions[l]) == grid_abscissa(
                    ranks[l] as int,
                    ranks.len() as int,
                    longest as int,
                ) && positions[l].within_limit(),
        decreases ranks.len() - i,
    {
        positions.push(grid_position(ranks[i], ranks.len(), longest));
        i += 1;
    }
    assert(positions@ =~= spread(ranks@, longest as int));
    positions
}

/// The ranks of a layer of `n` nodes that stand in the order of their indices.
fn ranks_in_index_order(n: usize) -> (ranks: Vec<usize>)
    ensures
        ranks@ == identity_ranks(n as nat),
{
    let mut ranks: Vec<usize> = Vec::new();
    let mut i: usize = 0;
    while i < n
        invariant
            i <= n,
            ranks.len() == i,
            forall|l: int| 0 <= l < i ==> ranks[l] == l,
        decreases n - i,
    {
        ranks.push(i);
        i += 1;
    }
    assert(ranks@ =~= identity_ranks(n as nat));
    ranks
}

impl AbscissaGraph {
    /// A graph without nodes or edges.
    pub fn new() -> (graph: AbscissaGraph)
        ensures
            graph@.top == Seq::<Abscissa>::empty(),
            graph@.bottom == Seq::<Abscissa>::empty(),
            graph@.edges == Seq::<Edge>::empty(),
            graph@.wf(),
    {
        AbscissaGraph {
            top_nodes_abscissas: Vec::new(),
            bottom_nodes_abscissas: Vec::new(),
            edges: Vec::new(),
        }
    }

    /// The working form of a `BipartiteGraph`: nodes numbered from 0 in each
    /// layer and evenly spaced in the order of their indices.
    ///
    /// Fails with `IndexOutOfRange` when an edge of `origin` names a node
    /// outside its layer.
    pub fn from_bipartite(origin: &BipartiteGraph) -> (result: Result<AbscissaGraph, GraphError>)
        requires
            origin@.top_count <= ABSCISSA_LIMIT,
            origin@.bottom_count <= ABSCISSA_LIMIT,
        ensures
            match result {
                Ok(graph) => {
                    &&& origin@.valid()
                    &&& graph@ == origin@.to_layout()
                    &&& graph@.wf()
                    &&& graph@.fits_grid()
                    &&& graph@.within_limit()
                    &&& graph@.is_aligned()
                },
                Err(error) => !origin@.valid() && error == GraphError::IndexOutOfRange,
            },
    {
        if !origin.is_valid() {
            return Err(GraphError::IndexOutOfRange);
        }
        let top_count = origin.top_node_count as usize;
        let bottom_count = origin.bottom_node_count as usize;
        let longest = if top_count >= bottom_count {
            top_count
        } else {
            bottom_count
        };
        let top_ranks = ranks_in_index_order(top_count);
        let bottom_ranks = ranks_in_index_order(bottom_count);
        let graph = AbscissaGraph {
            top_nodes_abscissas: spread_ranks(&top_ranks, longest),
            bottom_nodes_abscissas: spread_ranks(&bottom_ranks, longest),
            edges: origin.get_ordered_edges(),
        };
        proof {
            assert forall|k: int| 0 <= k < graph@.edges.len() implies (#[trigger] graph@.edges[k]).0
                < graph@.top.len() && graph@.edges[k].1 < graph@.bottom.len() by {
                assert(origin@.has_edge_in_range(origin@.edges[k]));
            }
            assert(graph@ == origin@.to_layout());
        }
        Ok(graph)
    }

    /// The exchanged form of the graph: every node is numbered by its rank,
    /// top nodes from 1 and bottom nodes from one more than their count.
    pub fn to_bipartite(&self) -> (graph: BipartiteGraph)
        requires
            self@.wf(),
            self@.top.len() + self@.bottom.len() <= u64::MAX,
        ensures
            graph@ == self@.to_model(),
            graph@.valid(),
            graph@.top_count == self@.top.len(),
            graph@.bottom_count == self@.bottom.len(),
            graph@.edges.len() == self@.edges.len(),
    {
        let top_ranks = rank_index_array(self.top_nodes_abscissas.as_slice());
        let bottom_ranks = rank_index_array(self.bottom_nodes_abscissas.as_slice());
        let top_count = self.top_nodes_abscissas.len();
        let mut edges: Vec<Edge> = Vec::new();
        let mut k: usize = 0;
        while k < self.edges.len()
            invariant
                k <= self.edges.len(),
                self@.wf(),
                self@.top.len() + self@.bottom.len() <= u64::MAX,
                top_count == self@.top.len(),
                top_ranks@ == rank_order(self@.top),
                bottom_ranks@ == rank_order(self@.bottom),
                is_rank_array(self@.top, top_ranks@),
                is_rank_array(self@.bottom, bottom_ranks@),
                edges.len() == k,
                forall|l: int| 0 <= l < k ==> edges[l] == self@.to_model().edges[l],
            decreases self.edges.len() - k,
        {
            let edge = self.edges[k];
            assert(self@.edges[k as int].0 < self@.top.len());
            let top_rank = top_ranks[edge.0 as usize] as u64;
            let bottom_rank = bottom_ranks[edge.1 as usize] as u64;
            edges.push((top_rank + 1, bottom_rank + 1 + top_count as u64));
            k += 1;
        }
        let graph = BipartiteGraph {
            top_node_count: top_count as u64,
            bottom_node_count: self.bottom_nodes_abscissas.len() as u64,
            edges,
        };
        proof {
            assert(graph@.edges =~= self@.to_model().edges);
            assert forall|l: int| 0 <= l < graph@.edges.len() implies graph@.has_edge_in_range(
                #[trigger] graph@.edges[l],
            ) by {
                assert(self@.edges[l].0 < self@.top.len());
                assert(top_ranks[self@.edges[l].0 as int] < self@.top.len());
                assert(bottom_ranks[self@.edges[l].1 as int] < self@.bottom.len());
            }
        }
        graph
    }

    /// Spaces the nodes of each layer evenly, in their order from left to
    /// right.
    ///
    /// The order of the nodes of a layer does not change, only their spacing.
    /// Call this after a heuristic has moved the nodes.
    pub fn rebalance_abscissas(&mut self)
        requires
            old(self)@.wf(),
            old(self)@.fits_grid(),
        ensures
            final(self)@ == old(self)@.balanced(),
            final(self)@.wf(),
            final(self)@.fits_grid(),
            final(self)@.within_limit(),
            final(self)@.is_aligned(),
            final(self)@.is_balanced(),
            final(self)@.same_graph_as(old(self)@),
            final(self)@.ordered_edges() == old(self)@.ordered_edges(),
    {
        let top_count = self.top_nodes_abscissas.len();
        let bottom_count = self.bottom_nodes_abscissas.len();
        let longest = if top_count >= bottom_count {
            top_count
        } else {
            bottom_count
        };
        let top_ranks = rank_index_array(self.top_nodes_abscissas.as_slice());
        let bottom_ranks = rank_index_array(self.bottom_nodes_abscissas.as_slice());
        self.top_nodes_abscissas = spread_ranks(&top_ranks, longest);
        self.bottom_nodes_abscissas = spread_ranks(&bottom_ranks, longest);
        proof {
            lemma_rebalance_idempotent(old(self)@);
            lemma_rebalance_keeps_order(old(self)@);
            assert forall|i: int| 0 <= i < self@.top.len() implies (#[trigger] self@.top[i]).valid() by {
                assert(self@.top[i].within_limit());
            }
            assert forall|i: int| 0 <= i < self@.bottom.len() implies (#[trigger] self@.bottom[i]).valid() by {
                assert(self@.bottom[i].within_limit());
            }
            assert(self@.edges == old(self)@.edges);
            assert(self@.top.len() == old(self)@.top.len());
            assert(self@.bottom.len() == old(self)@.bottom.len());
            assert forall|k: int| 0 <= k < self@.edges.len() implies (#[trigger] self@.edges[k]).0
                < self@.top.len() && self@.edges[k].1 < self@.bottom.len() by {
                assert(old(self)@.edges[k].0 < old(self)@.top.len());
            }
        }
    }
}

impl Clone for AbscissaGraph {
    fn clone(&self) -> (copy: Self)
        ensures
            copy@ == self@,
    {
        AbscissaGraph {
            top_nodes_abscissas: copy_abscissas(&self.top_nodes_abscissas),
            bottom_nodes_abscissas: copy_abscissas(&self.bottom_nodes_abscissas),
            edges: copy_edges(&self.edges),
        }
    }
}

impl Default for AbscissaGraph {
    fn default() -> (graph: Self)
        ensures
            graph@.top == Seq::<Abscissa>::empty(),
            graph@.bottom == Seq::<Abscissa>::empty(),
            graph@.edges == Seq::<Edge>::empty(),
    {
        AbscissaGraph::new()
    }
}

impl OrderedGraph for AbscissaGraph {
    open spec fn is_ordered(&self) -> bool {
        self@.wf()
    }

    open spec fn ordered_edges(&self) -> Seq<Edge> {
        self@.ordered_edges()
    }

    /// The nodes of an `AbscissaGraph` are not ordered by their indices: every
    /// edge is rebuilt from the ranks of its endpoints.
    fn get_ordered_edges(&self) -> (edges: Vec<Edge>) {
        let top_ranks = rank_index_array(self.top_nodes_abscissas.as_slice());
        let bottom_ranks = rank_index_array(self.bottom_nodes_abscissas.as_slice());
        let mut edges: Vec<Edge> = Vec::new();
        let mut k: usize = 0;
        while k < self.edges.len()
            invariant
                k <= self.edges.len(),
                self@.wf(),
                top_ranks@ == rank_order(self@.top),
                bottom_ranks@ == rank_order(self@.bottom),
                is_rank_array(self@.top, top_ranks@),
                is_rank_array(self@.bottom, bottom_ranks@),
                edges.len() == k,
                forall|l: int| 0 <= l < k ==> edges[l] == self@.ordered_edges()[l],
            decreases self.edges.len() - k,
        {
            let edge = self.edges[k];
            assert(self@.edges[k as int].0 < self@.top.len());
            edges.push((top_ranks[edge.0 as usize] as u64, bottom_ranks[edge.1 as usize] as u64));
            k += 1;
        }
        assert(edges@ =~= self@.ordered_edges());
        edges
    }
}

/// A copy of a list of abscissas.
fn copy_abscissas(abscissas: &Vec<Abscissa>) -> (copy: Vec<Abscissa>)
    ensures
        copy@ == abscissas@,
{
    let mut copy: Vec<Abscissa> = Vec::new();
    let mut k: usize = 0;
    while k < abscissas.len()
        invariant
            k <= abscissas.len(),
            copy@ == abscissas@.take(k as int),
        decreases abscissas.len() - k,
    {
        copy.push(abscissas[k]);
        assert(abscissas@.take(k + 1) == abscissas@.take(k as int).push(abscissas@[k as int]));
        k += 1;
    }
    assert(abscissas@.take(k as int) == abscissas@);
    copy
}

} // verus!
