use ocm_solver::abscissa::Abscissa;
use ocm_solver::bipartite_graph::BipartiteGraph;
use ocm_solver::graph_base::{GraphError, OrderedGraph};
use ocm_solver::graphs::abscissa_graph::AbscissaGraph;

fn pairs(abscissas: &[Abscissa]) -> Vec<(i64, i64)> {
    abscissas.iter().map(|a| (a.num, a.den)).collect()
}

fn abscissas(pairs: &[(i64, i64)]) -> Vec<Abscissa> {
    pairs.iter().map(|&(num, den)| Abscissa { num, den }).collect()
}

#[test]
fn new_graphs_are_empty() {
    let graph = BipartiteGraph::new();
    assert_eq!(graph.top_node_count, 0);
    assert_eq!(graph.bottom_node_count, 0);
    assert!(graph.edges.is_empty());
    let graph = BipartiteGraph::default();
    assert_eq!((graph.top_node_count, graph.bottom_node_count, graph.edges.len()), (0, 0, 0));
    let graph = AbscissaGraph::new();
    assert!(graph.top_nodes_abscissas.is_empty());
    assert!(graph.bottom_nodes_abscissas.is_empty());
    assert!(graph.edges.is_empty());
}

#[test]
fn initial_abscissas_are_evenly_spaced() {
    let origin = BipartiteGraph::from_parts(2, 3, 2, vec![(1, 3), (2, 5)]).unwrap();
    let graph = AbscissaGraph::from_bipartite(&origin).unwrap();
    // scale = 2 / 3; the top layer is offset by -2 / 3, the bottom one by -1.
    assert_eq!(pairs(&graph.top_nodes_abscissas), vec![(-2, 3), (0, 3)]);
    assert_eq!(pairs(&graph.bottom_nodes_abscissas), vec![(-3, 3), (-1, 3), (1, 3)]);
    assert_eq!(graph.edges, vec![(0, 0), (1, 2)]);
}

#[test]
fn the_longer_layer_starts_at_minus_one() {
    let origin = BipartiteGraph::from_parts(4, 1, 0, vec![]).unwrap();
    let graph = AbscissaGraph::from_bipartite(&origin).unwrap();
    assert_eq!(pairs(&graph.top_nodes_abscissas), vec![(-4, 4), (-2, 4), (0, 4), (2, 4)]);
    assert_eq!(pairs(&graph.bottom_nodes_abscissas), vec![(-1, 4)]);
}

#[test]
fn round_trip_gives_the_graph_back() {
    let edges = vec![(1, 6), (3, 4), (2, 5), (1, 4), (3, 7)];
    let origin = BipartiteGraph::from_parts(3, 4, 5, edges.clone()).unwrap();
    let back = AbscissaGraph::from_bipartite(&origin).unwrap().to_bipartite();
    assert_eq!(back.top_node_count, 3);
    assert_eq!(back.bottom_node_count, 4);
    assert_eq!(back.edges, edges);
}

#[test]
fn nodes_are_renumbered_by_rank() {
    // Top node 0 is the rightmost, top node 2 the leftmost.
    let graph = AbscissaGraph {
        top_nodes_abscissas: abscissas(&[(5, 1), (0, 1), (-7, 2)]),
        bottom_nodes_abscissas: abscissas(&[(1, 2), (1, 3)]),
        edges: vec![(0, 0), (1, 1), (2, 0)],
    };
    let model = graph.to_bipartite();
    assert_eq!(model.top_node_count, 3);
    assert_eq!(model.bottom_node_count, 2);
    // Ranks: top [2, 1, 0], bottom [1, 0].
    assert_eq!(model.edges, vec![(3, 5), (2, 4), (1, 5)]);
    assert_eq!(graph.get_ordered_edges(), vec![(2, 1), (1, 0), (0, 1)]);
}

#[test]
fn equal_abscissas_rank_by_index() {
    let graph = AbscissaGraph {
        top_nodes_abscissas: abscissas(&[(1, 2), (2, 4), (0, 1), (3, 6)]),
        bottom_nodes_abscissas: abscissas(&[(0, 1)]),
        edges: vec![(0, 0), (1, 0), (2, 0), (3, 0)],
    };
    assert_eq!(graph.get_ordered_edges(), vec![(1, 0), (2, 0), (0, 0), (3, 0)]);
}

#[test]
fn ordered_edges_of_a_bipartite_graph_start_from_zero() {
    let graph = BipartiteGraph::from_parts(2, 2, 3, vec![(1, 3), (2, 4), (2, 3)]).unwrap();
    assert_eq!(graph.get_ordered_edges(), vec![(0, 0), (1, 1), (1, 0)]);
}

#[test]
fn rebalance_spaces_the_nodes_in_their_order() {
    let mut graph = AbscissaGraph {
        top_nodes_abscissas: abscissas(&[(5, 1), (0, 1), (-7, 2)]),
        bottom_nodes_abscissas: abscissas(&[(1, 2), (1, 3)]),
        edges: vec![(0, 0), (1, 1), (2, 0)],
    };
    graph.rebalance_abscissas();
    assert_eq!(pairs(&graph.top_nodes_abscissas), vec![(1, 3), (-1, 3), (-3, 3)]);
    assert_eq!(pairs(&graph.bottom_nodes_abscissas), vec![(0, 3), (-2, 3)]);
    assert_eq!(graph.edges, vec![(0, 0), (1, 1), (2, 0)]);
}

#[test]
fn rebalance_twice_is_rebalance_once() {
    let mut graph = AbscissaGraph {
        top_nodes_abscissas: abscissas(&[(3, 7), (3, 7), (-1, 9), (100, 3), (0, 5)]),
        bottom_nodes_abscissas: abscissas(&[(2, 1), (-2, 1), (4, 2)]),
        edges: vec![(0, 1), (4, 2)],
    };
    graph.rebalance_abscissas();
    let once = (pairs(&graph.top_nodes_abscissas), pairs(&graph.bottom_nodes_abscissas), graph.edges.clone());
    graph.rebalance_abscissas();
    let twice = (pairs(&graph.top_nodes_abscissas), pairs(&graph.bottom_nodes_abscissas), graph.edges.clone());
    assert_eq!(once, twice);
    assert_eq!(once.0, vec![(-1, 5), (1, 5), (-5, 5), (3, 5), (-3, 5)]);
    assert_eq!(once.1, vec![(-1, 5), (-3, 5), (1, 5)]);
}

#[test]
fn rebalance_keeps_the_order_of_the_nodes() {
    let mut graph = AbscissaGraph {
        top_nodes_abscissas: abscissas(&[(9, 4), (-3, 1), (1, 8)]),
        bottom_nodes_abscissas: abscissas(&[(0, 1), (0, 2), (-1, 100)]),
        edges: vec![(0, 0), (1, 1), (2, 2), (0, 2)],
    };
    let before = graph.get_ordered_edges();
    graph.rebalance_abscissas();
    assert_eq!(graph.get_ordered_edges(), before);
}

#[test]
fn an_edge_outside_its_layer_is_rejected() {
    assert_eq!(BipartiteGraph::from_parts(2, 2, 1, vec![(0, 3)]).unwrap_err(), GraphError::IndexOutOfRange);
    assert_eq!(BipartiteGraph::from_parts(2, 2, 1, vec![(3, 3)]).unwrap_err(), GraphError::IndexOutOfRange);
    assert_eq!(BipartiteGraph::from_parts(2, 2, 1, vec![(1, 2)]).unwrap_err(), GraphError::IndexOutOfRange);
    assert_eq!(BipartiteGraph::from_parts(2, 2, 1, vec![(1, 5)]).unwrap_err(), GraphError::IndexOutOfRange);
    assert_eq!(
        BipartiteGraph::from_parts(u64::MAX, 2, 1, vec![(1, u64::MAX)]).unwrap_err(),
        GraphError::IndexOutOfRange
    );
    assert!(BipartiteGraph::from_parts(2, 2, 2, vec![(1, 3), (2, 4)]).is_ok());
    let graph = BipartiteGraph { top_node_count: 2, bottom_node_count: 2, edges: vec![(1, 3), (2, 5)] };
    assert!(!graph.is_valid());
    assert!(graph.edge_in_range((1, 3)));
    assert!(!graph.edge_in_range((2, 5)));
    assert_eq!(AbscissaGraph::from_bipartite(&graph).unwrap_err(), GraphError::IndexOutOfRange);
}

#[test]
fn a_wrong_edge_count_is_rejected() {
    assert_eq!(BipartiteGraph::from_parts(2, 2, 2, vec![(1, 3)]).unwrap_err(), GraphError::CountMismatch);
    assert_eq!(BipartiteGraph::from_parts(2, 2, 0, vec![(1, 3)]).unwrap_err(), GraphError::CountMismatch);
    // The count is checked before the edges.
    assert_eq!(BipartiteGraph::from_parts(2, 2, 3, vec![(9, 9)]).unwrap_err(), GraphError::CountMismatch);
}

#[test]
fn clones_are_equal() {
    let graph = BipartiteGraph::from_parts(2, 2, 2, vec![(1, 3), (2, 4)]).unwrap();
    let copy = graph.clone();
    assert_eq!((copy.top_node_count, copy.bottom_node_count, copy.edges), (2, 2, vec![(1, 3), (2, 4)]));
    let layout = AbscissaGraph::from_bipartite(&graph).unwrap();
    let copy = layout.clone();
    assert_eq!(pairs(&copy.top_nodes_abscissas), pairs(&layout.top_nodes_abscissas));
    assert_eq!(pairs(&copy.bottom_nodes_abscissas), pairs(&layout.bottom_nodes_abscissas));
    assert_eq!(copy.edges, layout.edges);
}
