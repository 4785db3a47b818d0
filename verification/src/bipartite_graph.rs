//! The bipartite graph as it is exchanged: node counts and an edge list.

use vstd::prelude::*;
use crate::decimal::{decimal, push_decimal};
use crate::graph_base::{copy_edges, Edge, GraphError, OrderedGraph};
use crate::parser::{header_tag, NEWLINE, SPACE};

verus! {

/// A two-layer graph as it is read and written.
///
/// Top nodes are numbered from 1, bottom nodes from `top_node_count + 1`.
#[derive(Debug)]
pub struct BipartiteGraph {
    /// Number of top nodes. Their indices start from 1.
    pub top_node_count: u64,
    /// Number of bottom nodes. Their indices start from `top_node_count + 1`.
    pub bottom_node_count: u64,
    /// Edges between the top and bottom nodes, in insertion order.
    pub edges: Vec<Edge>,
}

/// The mathematical content of a `BipartiteGraph`.
pub ghost struct GraphModel {
    pub top_count: nat,
    pub bottom_count: nat,
    pub edges: Seq<Edge>,
}

impl GraphModel {
    /// The edge joins a top node to a bottom node of this graph.
    pub open spec fn has_edge_in_range(&self, edge: Edge) -> bool {
        &&& 1 <= edge.0 <= self.top_count
        &&& self.top_count + 1 <= edge.1 <= self.top_count + self.bottom_count
    }

    /// Every edge joins a top node to a bottom node of this graph.
    pub open spec fn valid(&self) -> bool {
        forall|k: int| 0 <= k < self.edges.len() ==> self.has_edge_in_range(#[trigger] self.edges[k])
    }

    /// The edges with the nodes of each layer numbered from 0.
    pub open spec fn ordered_edges(&self) -> Seq<Edge> {
        Seq::new(
            self.edges.len(),
            |k: int| ((self.edges[k].0 - 1) as u64, (self.edges[k].1 - 1 - self.top_count) as u64),
        )
    }
}

/// The line that an edge is written on.
pub open spec fn edge_line(edge: Edge) -> Seq<u8> {
    decimal(edge.0 as nat) + seq![SPACE] + decimal(edge.1 as nat) + seq![NEWLINE]
}

/// The lines that the edges of a list are written on.
pub open spec fn edge_lines(edges: Seq<Edge>) -> Seq<u8>
    decreases edges.len(),
{
    if edges.len() == 0 {
        Seq::empty()
    } else {
        edge_line(edges[0]) + edge_lines(edges.skip(1))
    }
}

/// The lines of a list of edges with one more edge are those of the list and
/// the line of the edge.
pub proof fn lemma_edge_lines_push(edges: Seq<Edge>, edge: Edge)
    ensures
        edge_lines(edges.push(edge)) == edge_lines(edges) + edge_line(edge),
    decreases edges.len(),
{
    if edges.len() == 0 {
        let single = edges.push(edge);
        assert(single.skip(1) =~= Seq::<Edge>::empty());
        assert(single[0] == edge);
        assert(edge_lines(single) == edge_line(edge) + edge_lines(single.skip(1)));
        assert(edge_lines(single.skip(1)) =~= Seq::<u8>::empty());
        assert(edge_lines(edges) =~= Seq::<u8>::empty());
        assert(edge_line(edge) + Seq::<u8>::empty() =~= Seq::<u8>::empty() + edge_line(edge));
    } else {
        let longer = edges.push(edge);
        assert(longer.skip(1) =~= edges.skip(1).push(edge));
        assert(longer[0] == edges[0]);
        lemma_edge_lines_push(edges.skip(1), edge);
        assert(edge_lines(longer) == edge_line(edges[0]) + edge_lines(longer.skip(1)));
        assert(edge_lines(edges) == edge_line(edges[0]) + edge_lines(edges.skip(1)));
        assert(edge_line(edges[0]) + (edge_lines(edges.skip(1)) + edge_line(edge)) =~= (edge_line(edges[0])
            + edge_lines(edges.skip(1))) + edge_line(edge));
    }
}

impl GraphModel {
    /// The header line of the text form of the graph.
    pub open spec fn header_line(&self) -> Seq<u8> {
        header_tag() + decimal(self.top_count) + seq![SPACE] + decimal(self.bottom_count) + seq![SPACE] + decimal(
            self.edges.len(),
        ) + seq![NEWLINE]
    }

    /// The text form of the graph: the header line `p ocr <top count>
    /// <bottom count> <edge count>` and one line `<top index> <bottom
    /// index>` for every edge.
    pub open spec fn to_text(&self) -> Seq<u8> {
        self.header_line() + edge_lines(self.edges)
    }
}

impl View for BipartiteGraph {
    type V = GraphModel;

    open spec fn view(&self) -> GraphModel {
        GraphModel {
            top_count: self.top_node_count as nat,
            bottom_count: self.bottom_node_count as nat,
            edges: self.edges@,
        }
    }
}

impl BipartiteGraph {
    /// A graph without nodes or edges.
    pub fn new() -> (graph: BipartiteGraph)
        ensures
            graph@.top_count == 0,
            graph@.bottom_count == 0,
            graph@.edges == Seq::<Edge>::empty(),
            graph@.valid(),
    {
        BipartiteGraph { top_node_count: 0, bottom_node_count: 0, edges: Vec::new() }
    }

    /// Tests whether `edge` joins a top node to a bottom node of this graph.
    pub fn edge_in_range(&self, edge: Edge) -> (b: bool)
        ensures
            b == self@.has_edge_in_range(edge),
    {
        1 <= edge.0 && edge.0 <= self.top_node_count && edge.1 > self.top_node_count && edge.1
            - self.top_node_count <= self.bottom_node_count
    }

    /// Tests whether every edge joins a top node to a bottom node of this
    /// graph.
    pub fn is_valid(&self) -> (b: bool)
        ensures
            b == self@.valid(),
    {
        let mut k: usize = 0;
        while k < self.edges.len()
            invariant
                k <= self.edges.len(),
                forall|l: int| 0 <= l < k ==> self@.has_edge_in_range(#[trigger] self@.edges[l]),
            decreases self.edges.len() - k,
        {
            if !self.edge_in_range(self.edges[k]) {
                assert(!self@.has_edge_in_range(self@.edges[k as int]));
                return false;
            }
            k += 1;
        }
        true
    }

    /// The graph with the given node counts and edges, as announced by a
    /// header that promises `edge_count` edges.
    ///
    /// Fails with `CountMismatch` when `edge_count` is not the number of edges
    /// supplied, and otherwise with `IndexOutOfRange` when an edge names a node
    /// outside its layer.
    pub fn from_parts(top_node_count: u64, bottom_node_count: u64, edge_count: u64, edges: Vec<Edge>) -> (result:
        Result<BipartiteGraph, GraphError>)
        ensures
            match result {
                Ok(graph) => {
                    &&& edge_count == edges@.len()
                    &&& graph@.valid()
                    &&& graph@.top_count == top_node_count
                    &&& graph@.bottom_count == bottom_node_count
                    &&& graph@.edges == edges@
                },
                Err(GraphError::CountMismatch) => edge_count != edges@.len(),
                Err(GraphError::IndexOutOfRange) => {
                    &&& edge_count == edges@.len()
                    &&& !(GraphModel {
                        top_count: top_node_count as nat,
                        bottom_count: bottom_node_count as nat,
                        edges: edges@,
                    }).valid()
                },
            },
    {
        if edges.len() as u64 != edge_count {
            return Err(GraphError::CountMismatch);
        }
        let graph = BipartiteGraph { top_node_count, bottom_node_count, edges };
        if graph.is_valid() {
            Ok(graph)
        } else {
            Err(GraphError::IndexOutOfRange)
        }
    }
}

impl BipartiteGraph {
    /// The text form of the graph, as it is saved to a file.
    pub fn to_text(&self) -> (text: Vec<u8>)
        ensures
            text@ == self@.to_text(),
    {
        let mut text: Vec<u8> = Vec::new();
        text.push(112);
        text.push(32);
        text.push(111);
        text.push(99);
        text.push(114);
        text.push(32);
        assert(text@ =~= header_tag());
        push_decimal(&mut text, self.top_node_count);
        text.push(SPACE);
        push_decimal(&mut text, self.bottom_node_count);
        text.push(SPACE);
        push_decimal(&mut text, self.edges.len() as u64);
        text.push(NEWLINE);
        assert(text@ =~= self@.header_line());
        let mut k: usize = 0;
        assert(self@.edges.take(0) =~= Seq::<Edge>::empty());
        assert(text@ =~= self@.header_line() + edge_lines(self@.edges.take(0)));
        while k < self.edges.len()
            invariant
                k <= self.edges.len(),
                text@ == self@.header_line() + edge_lines(self@.edges.take(k as int)),
            decreases self.edges.len() - k,
        {
            let edge = self.edges[k];
            let ghost before = text@;
            push_decimal(&mut text, edge.0);
            text.push(SPACE);
            push_decimal(&mut text, edge.1);
            text.push(NEWLINE);
            proof {
                assert(text@ =~= before + edge_line(edge));
                assert(self@.edges.take(k + 1) == self@.edges.take(k as int).push(edge));
                lemma_edge_lines_push(self@.edges.take(k as int), edge);
                assert(text@ =~= self@.header_line() + edge_lines(self@.edges.take(k + 1)));
            }
            k += 1;
        }
        assert(self@.edges.take(k as int) == self@.edges);
        text
    }
}

impl Clone for BipartiteGraph {
    fn clone(&self) -> (copy: Self)
        ensures
            copy@ == self@,
    {
        BipartiteGraph {
            top_node_count: self.top_node_count,
            bottom_node_count: self.bottom_node_count,
            edges: copy_edges(&self.edges),
        }
    }
}

impl Default for BipartiteGraph {
    fn default() -> (graph: Self)
        ensures
            graph@.top_count == 0,
            graph@.bottom_count == 0,
            graph@.edges == Seq::<Edge>::empty(),
    {
        BipartiteGraph::new()
    }
}

impl OrderedGraph for BipartiteGraph {
    open spec fn is_ordered(&self) -> bool {
        self@.valid()
    }

    open spec fn ordered_edges(&self) -> Seq<Edge> {
        self@.ordered_edges()
    }

    /// The nodes of a `BipartiteGraph` are already in order; only their
    /// numbering is brought down to start from 0 in each layer.
    fn get_ordered_edges(&self) -> (edges: Vec<Edge>) {
        let mut edges: Vec<Edge> = Vec::new();
        let mut k: usize = 0;
        while k < self.edges.len()
            invariant
                k <= self.edges.len(),
                self@.valid(),
                edges.len() == k,
                forall|l: int| 0 <= l < k ==> edges[l] == self@.ordered_edges()[l],
            decreases self.edges.len() - k,
        {
            let edge = self.edges[k];
            assert(self@.has_edge_in_range(self@.edges[k as int]));
            edges.push((edge.0 - 1, edge.1 - 1 - self.top_node_count));
            k += 1;
        }
        assert(edges@ =~= self@.ordered_edges());
        edges
    }
}

} // verus!
