use ocm_solver::abscissa::Abscissa;
use ocm_solver::bipartite_graph::BipartiteGraph;
use ocm_solver::crossings::{active_edges_at, edge_is_alive, edges_cross, line_sweep_crossings};
use ocm_solver::graphs::abscissa_graph::AbscissaGraph;

fn layout(top: &[(i64, i64)], bottom: &[(i64, i64)], edges: &[(u64, u64)]) -> AbscissaGraph {
    AbscissaGraph {
        top_nodes_abscissas: top.iter().map(|&(num, den)| Abscissa { num, den }).collect(),
        bottom_nodes_abscissas: bottom.iter().map(|&(num, den)| Abscissa { num, den }).collect(),
        edges: edges.to_vec(),
    }
}

fn two_by_two(edges: &[(u64, u64)]) -> AbscissaGraph {
    layout(&[(-1, 1), (1, 1)], &[(-1, 1), (1, 1)], edges)
}

#[test]
fn edgeless_graph_has_no_crossings() {
    assert_eq!(line_sweep_crossings(&two_by_two(&[])), 0);
    assert_eq!(line_sweep_crossings(&AbscissaGraph::new()), 0);
    assert_eq!(line_sweep_crossings(&BipartiteGraph::new()), 0);
}

#[test]
fn parallel_edges_do_not_cross() {
    assert_eq!(line_sweep_crossings(&two_by_two(&[(0, 0), (1, 1)])), 0);
}

#[test]
fn inverted_edges_cross_once() {
    assert_eq!(line_sweep_crossings(&two_by_two(&[(0, 1), (1, 0)])), 1);
}

#[test]
fn complete_two_by_two_has_one_crossing() {
    assert_eq!(line_sweep_crossings(&two_by_two(&[(0, 0), (0, 1), (1, 0), (1, 1)])), 1);
}

#[test]
fn edges_sharing_an_endpoint_do_not_cross() {
    assert!(!edges_cross((0, 0), (0, 1)));
    assert!(!edges_cross((0, 1), (1, 1)));
    assert!(!edges_cross((2, 2), (2, 2)));
    assert!(edges_cross((0, 1), (1, 0)));
    assert!(edges_cross((1, 0), (0, 1)));
    assert!(!edges_cross((0, 0), (1, 1)));
    assert!(edges_cross((0, u64::MAX), (u64::MAX, 0)));
}

#[test]
fn dead_edges_lie_at_or_before_the_line() {
    assert!(!edge_is_alive((1, 2), 2));
    assert!(edge_is_alive((1, 3), 2));
    assert!(edge_is_alive((3, 1), 2));
    assert!(!edge_is_alive((0, 0), 0));
}

#[test]
fn crossings_follow_the_abscissas_not_the_indices() {
    // Top node 0 stands right of top node 1: the drawing is the inverted one.
    let graph = layout(&[(1, 1), (-1, 1)], &[(-1, 1), (1, 1)], &[(0, 0), (1, 1)]);
    assert_eq!(line_sweep_crossings(&graph), 1);
    let graph = layout(&[(1, 1), (-1, 1)], &[(-1, 1), (1, 1)], &[(0, 1), (1, 0)]);
    assert_eq!(line_sweep_crossings(&graph), 0);
}

#[test]
fn crossings_of_a_bipartite_graph() {
    // Top nodes 1..=3, bottom nodes 4..=6, every top node joined to the
    // bottom node opposite in order.
    let graph = BipartiteGraph::from_parts(3, 3, 3, vec![(1, 6), (2, 5), (3, 4)]).unwrap();
    assert_eq!(line_sweep_crossings(&graph), 3);
    let graph = BipartiteGraph::from_parts(3, 3, 3, vec![(1, 4), (2, 5), (3, 6)]).unwrap();
    assert_eq!(line_sweep_crossings(&graph), 0);
}

#[test]
fn complete_three_by_three_has_nine_crossings() {
    let mut edges = Vec::new();
    for top in 1..=3u64 {
        for bottom in 4..=6u64 {
            edges.push((top, bottom));
        }
    }
    let graph = BipartiteGraph::from_parts(3, 3, 9, edges).unwrap();
    assert_eq!(line_sweep_crossings(&graph), 9);
}

#[test]
fn far_apart_edges_are_retired_without_changing_the_count() {
    // A long chain of parallel edges with one edge across all of them.
    let n = 200u64;
    let mut edges: Vec<(u64, u64)> = (1..=n).map(|i| (i, n + i)).collect();
    edges.push((1, 2 * n));
    let graph = BipartiteGraph::from_parts(n, n, n + 1, edges).unwrap();
    assert_eq!(line_sweep_crossings(&graph), n - 2);
}

#[test]
fn repeated_edges_are_one_active_edge() {
    // The second (0, 1) finds one active edge that crosses it, and so does
    // the second (1, 0): the set of active edges holds each edge once.
    assert_eq!(line_sweep_crossings(&two_by_two(&[(0, 1), (0, 1), (1, 0), (1, 0)])), 2);
    assert_eq!(line_sweep_crossings(&two_by_two(&[(0, 1), (1, 0), (0, 1), (1, 0)])), 3);
}

#[test]
fn active_edges_are_met_and_not_left_behind() {
    let graph = two_by_two(&[(0, 1), (1, 0), (0, 0), (1, 1), (0, 1)]);
    assert_eq!(active_edges_at(&graph, 0), vec![(0, 1), (1, 0)]);
    assert_eq!(active_edges_at(&graph, 1), Vec::<(u64, u64)>::new());
    let graph = layout(
        &[(-1, 1), (0, 1), (1, 1)],
        &[(-1, 1), (0, 1), (1, 1)],
        &[(2, 0), (1, 1), (0, 2), (2, 2), (2, 0)],
    );
    assert_eq!(active_edges_at(&graph, 0), vec![(0, 2), (2, 0)]);
    assert_eq!(active_edges_at(&graph, 1), vec![(0, 2), (2, 0)]);
    assert_eq!(active_edges_at(&graph, 2), Vec::<(u64, u64)>::new());
    assert_eq!(active_edges_at(&AbscissaGraph::new(), 0), Vec::<(u64, u64)>::new());
}

#[test]
fn crossings_of_a_simple_graph_are_its_crossing_pairs() {
    // Pseudo-random distinct edges between two layers of 40 nodes.
    let n = 40u64;
    let mut state: u64 = 2024;
    let mut edges: Vec<(u64, u64)> = Vec::new();
    while edges.len() < 300 {
        state = state.wrapping_mul(6364136223846793005).wrapping_add(1442695040888963407);
        let edge = (1 + (state >> 33) % n, n + 1 + (state >> 13) % n);
        if !edges.contains(&edge) {
            edges.push(edge);
        }
    }
    let mut pairs = 0u64;
    for (i, a) in edges.iter().enumerate() {
        for b in &edges[i + 1..] {
            if (a.0 < b.0 && a.1 > b.1) || (a.0 > b.0 && a.1 < b.1) {
                pairs += 1;
            }
        }
    }
    let graph = BipartiteGraph::from_parts(n, n, 300, edges).unwrap();
    assert_eq!(line_sweep_crossings(&graph), pairs);
    let layout = AbscissaGraph::from_bipartite(&graph).unwrap();
    assert_eq!(line_sweep_crossings(&layout), pairs);
}
