//! The abscissas of the neighbours of every node of a layer.

use vstd::prelude::*;
use crate::abscissa::Abscissa;
use crate::graph_base::Edge;
use crate::graphs::abscissa_graph::Layout;

verus! {

/// The endpoint of `edge` in the top layer if `top_side`, else in the bottom
/// layer.
pub open spec fn own_end(edge: Edge, top_side: bool) -> u64 {
    if top_side {
        edge.0
    } else {
        edge.1
    }
}

/// The endpoint of `edge` in the layer opposite to that of `own_end`.
pub open spec fn other_end(edge: Edge, top_side: bool) -> u64 {
    if top_side {
        edge.1
    } else {
        edge.0
    }
}

/// The abscissas of the neighbours of the node `node` of one layer, one for
/// every edge at the node, in the order of the edges. `opposite` holds the
/// abscissas of the other layer.
pub open spec fn neighbors(edges: Seq<Edge>, opposite: Seq<Abscissa>, top_side: bool, node: int) -> Seq<Abscissa> {
    edges.filter(|edge: Edge| own_end(edge, top_side) == node).map_values(
        |edge: Edge| opposite[other_end(edge, top_side) as int],
    )
}

/// Every edge joins a node below `own_count` of one layer to a node below
/// `other_count` of the other.
pub open spec fn edges_within(edges: Seq<Edge>, top_side: bool, own_count: int, other_count: int) -> bool {
    forall|k: int|
        0 <= k < edges.len() ==> own_end(#[trigger] edges[k], top_side) < own_count && other_end(
            edges[k],
            top_side,
        ) < other_count
}

/// The edges of a well-formed graph join nodes of its two layers, whichever
/// layer is taken first.
pub proof fn lemma_edges_within_layers(layout: Layout)
    requires
        layout.wf(),
    ensures
        edges_within(layout.edges, true, layout.top.len() as int, layout.bottom.len() as int),
        edges_within(layout.edges, false, layout.bottom.len() as int, layout.top.len() as int),
{
    assert forall|k: int| 0 <= k < layout.edges.len() implies own_end(#[trigger] layout.edges[k], true)
        < layout.top.len() && other_end(layout.edges[k], true) < layout.bottom.len() by {
        assert(layout.edges[k].0 < layout.top.len());
    }
    assert forall|k: int| 0 <= k < layout.edges.len() implies own_end(#[trigger] layout.edges[k], false)
        < layout.bottom.len() && other_end(layout.edges[k], false) < layout.top.len() by {
        assert(layout.edges[k].0 < layout.top.len());
    }
}

/// What one more edge adds to the neighbours of a node.
pub proof fn lemma_neighbors_push(edges: Seq<Edge>, edge: Edge, opposite: Seq<Abscissa>, top_side: bool, node: int)
    ensures
        neighbors(edges.push(edge), opposite, top_side, node) == if own_end(edge, top_side) == node {
            neighbors(edges, opposite, top_side, node).push(opposite[other_end(edge, top_side) as int])
        } else {
            neighbors(edges, opposite, top_side, node)
        },
{
    let at_node = |e: Edge| own_end(e, top_side) == node;
    let position = |e: Edge| opposite[other_end(e, top_side) as int];
    reveal_with_fuel(Seq::filter, 2);
    assert(edges.push(edge).drop_last() == edges);
    assert(edges.push(edge).last() == edge);
    if own_end(edge, top_side) == node {
        assert(edges.push(edge).filter(at_node) == edges.filter(at_node).push(edge));
        assert(edges.filter(at_node).push(edge).map_values(position) =~= edges.filter(at_node).map_values(
            position,
        ).push(position(edge)));
    } else {
        assert(edges.push(edge).filter(at_node) == edges.filter(at_node));
    }
}

/// A node without edges has no neighbours.
pub proof fn lemma_no_edges_no_neighbors(edges: Seq<Edge>, opposite: Seq<Abscissa>, top_side: bool, node: int)
    requires
        forall|k: int| 0 <= k < edges.len() ==> own_end(#[trigger] edges[k], top_side) != node,
    ensures
        neighbors(edges, opposite, top_side, node).len() == 0,
    decreases edges.len(),
{
    if edges.len() == 0 {
        reveal_with_fuel(Seq::filter, 1);
    } else {
        lemma_no_edges_no_neighbors(edges.drop_last(), opposite, top_side, node);
        assert(edges == edges.drop_last().push(edges.last()));
        lemma_neighbors_push(edges.drop_last(), edges.last(), opposite, top_side, node);
    }
}

/// What holds of every abscissa of the other layer holds of every neighbour.
pub proof fn lemma_neighbors_keep(
    edges: Seq<Edge>,
    opposite: Seq<Abscissa>,
    top_side: bool,
    node: int,
    own_count: int,
    property: spec_fn(Abscissa) -> bool,
)
    requires
        edges_within(edges, top_side, own_count, opposite.len() as int),
        forall|j: int| 0 <= j < opposite.len() ==> property(#[trigger] opposite[j]),
    ensures
        forall|k: int|
            0 <= k < neighbors(edges, opposite, top_side, node).len() ==> property(
                #[trigger] neighbors(edges, opposite, top_side, node)[k],
            ),
        neighbors(edges, opposite, top_side, node).len() <= edges.len(),
    decreases edges.len(),
{
    if edges.len() == 0 {
        reveal_with_fuel(Seq::filter, 1);
    } else {
        let rest = edges.drop_last();
        assert forall|k: int| 0 <= k < rest.len() implies own_end(#[trigger] rest[k], top_side) < own_count
            && other_end(rest[k], top_side) < opposite.len() by {
            assert(rest[k] == edges[k]);
        }
        lemma_neighbors_keep(rest, opposite, top_side, node, own_count, property);
        assert(edges == rest.push(edges.last()));
        lemma_neighbors_push(rest, edges.last(), opposite, top_side, node);
        assert(other_end(edges[edges.len() - 1], top_side) < opposite.len());
    }
}

/// For every node of one layer, the abscissas of its neighbours.
pub fn collect_neighbors(edges: &Vec<Edge>, own_count: usize, opposite: &Vec<Abscissa>, top_side: bool) -> (rows: Vec<
    Vec<Abscissa>,
>)
    requires
        edges_within(edges@, top_side, own_count as int, opposite@.len() as int),
    ensures
        rows.len() == own_count,
        forall|i: int| 0 <= i < own_count ==> (#[trigger] rows[i])@ == neighbors(edges@, opposite@, top_side, i),
{
    let mut rows: Vec<Vec<Abscissa>> = Vec::new();
    while rows.len() < own_count
        invariant
            rows.len() <= own_count,
            forall|i: int| 0 <= i < rows.len() ==> (#[trigger] rows[i])@ == Seq::<Abscissa>::empty(),
        decreases own_count - rows.len(),
    {
        rows.push(Vec::new());
    }
    proof {
        reveal_with_fuel(Seq::filter, 1);
        assert(edges@.take(0) =~= Seq::<Edge>::empty());
        assert forall|i: int| 0 <= i < own_count implies (#[trigger] rows[i])@ == neighbors(
            edges@.take(0),
            opposite@,
            top_side,
            i,
        ) by {
            assert(neighbors(edges@.take(0), opposite@, top_side, i) =~= Seq::<Abscissa>::empty());
        }
    }
    let mut k: usize = 0;
    while k < edges.len()
        invariant
            k <= edges.len(),
            rows.len() == own_count,
            edges_within(edges@, top_side, own_count as int, opposite@.len() as int),
            forall|i: int|
                0 <= i < own_count ==> (#[trigger] rows[i])@ == neighbors(
                    edges@.take(k as int),
                    opposite@,
                    top_side,
                    i,
                ),
        decreases edges.len() - k,
    {
        let edge = edges[k];
        let (own, other) = if top_side {
            (edge.0, edge.1)
        } else {
            (edge.1, edge.0)
        };
        assert(own == own_end(edges@[k as int], top_side) && other == other_end(edges@[k as int], top_side));
        assert(own < own_count && other < opposite.len());
        let position = opposite[other as usize];
        let ghost before = rows@;
        rows[own as usize].push(position);
        proof {
            assert(edges@.take(k + 1) == edges@.take(k as int).push(edge));
            assert forall|i: int| 0 <= i < own_count implies (#[trigger] rows[i])@ == neighbors(
                edges@.take(k + 1),
                opposite@,
                top_side,
                i,
            ) by {
                lemma_neighbors_push(edges@.take(k as int), edge, opposite@, top_side, i);
                assert(before[i]@ == neighbors(edges@.take(k as int), opposite@, top_side, i));
                if i == own {
                    assert(rows[i]@ == before[i]@.push(position));
                } else {
                    assert(rows[i] == before[i]);
                }
            }
        }
        k += 1;
    }
    assert(edges@.take(k as int) == edges@);
    rows
}

} // verus!
