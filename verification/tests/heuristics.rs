use ocm_solver::abscissa::Abscissa;
use ocm_solver::algorithms::barycenter_heuristic::{barycenter_heuristic_solve, iterated_barycenter_heuristic_solve};
use ocm_solver::algorithms::iteration::{iterate_heuristic, refine, Heuristic};
use ocm_solver::algorithms::median_heuristic::{iterated_median_heuristic_solve, median_heuristic_solve};
use ocm_solver::algorithms::neighbors::collect_neighbors;
use ocm_solver::algorithms::{solve, Algorithm};
use ocm_solver::bipartite_graph::BipartiteGraph;
use ocm_solver::crossings::line_sweep_crossings;
use ocm_solver::graph_base::GraphError;
use ocm_solver::graphs::abscissa_graph::AbscissaGraph;

fn pairs(abscissas: &[Abscissa]) -> Vec<(i64, i64)> {
    abscissas.iter().map(|a| (a.num, a.den)).collect()
}

fn abscissas(pairs: &[(i64, i64)]) -> Vec<Abscissa> {
    pairs.iter().map(|&(num, den)| Abscissa { num, den }).collect()
}

fn same_values(left: &[Abscissa], right: &[Abscissa]) -> bool {
    left.len() == right.len() && left.iter().zip(right).all(|(a, b)| a.has_same_value(b))
}

/// Three top nodes, four bottom nodes; top node 2 and bottom node 3 have no
/// edge.
fn sample() -> AbscissaGraph {
    let origin = BipartiteGraph::from_parts(3, 4, 5, vec![(1, 6), (1, 4), (2, 5), (2, 4), (2, 6)]).unwrap();
    AbscissaGraph::from_bipartite(&origin).unwrap()
}

/// The complete inversion of `n` top nodes against `n` bottom nodes.
fn inversion(n: u64) -> BipartiteGraph {
    let edges: Vec<(u64, u64)> = (1..=n).map(|i| (i, 2 * n + 1 - i)).collect();
    BipartiteGraph::from_parts(n, n, n, edges).unwrap()
}

#[test]
fn neighbors_are_collected_in_edge_order() {
    let graph = sample();
    let rows = collect_neighbors(&graph.edges, 3, &graph.bottom_nodes_abscissas, true);
    let rows: Vec<Vec<(i64, i64)>> = rows.iter().map(|row| pairs(row)).collect();
    assert_eq!(rows, vec![vec![(0, 4), (-4, 4)], vec![(-2, 4), (-4, 4), (0, 4)], vec![]]);
    let rows = collect_neighbors(&graph.edges, 4, &graph.top_nodes_abscissas, false);
    let rows: Vec<Vec<(i64, i64)>> = rows.iter().map(|row| pairs(row)).collect();
    assert_eq!(rows, vec![vec![(-3, 4), (-1, 4)], vec![(-1, 4)], vec![(-3, 4), (-1, 4)], vec![]]);
}

#[test]
fn median_pass_moves_every_node_to_the_median_of_its_neighbors() {
    let mut graph = sample();
    median_heuristic_solve(&mut graph);
    // Top 0: neighbours -1 and 0, midpoint (-4*4 + 0*4) / (2*4*4).
    // Top 1: neighbours -1, -1/2, 0, median -1/2. Top 2: no neighbour.
    assert_eq!(pairs(&graph.top_nodes_abscissas), vec![(-16, 32), (-2, 4), (1, 4)]);
    // Bottom 0 and 2: neighbours -3/4 and -1/4. Bottom 1: -1/4. Bottom 3: none.
    assert_eq!(pairs(&graph.bottom_nodes_abscissas), vec![(-16, 32), (-1, 4), (-16, 32), (2, 4)]);
    assert_eq!(graph.edges, sample().edges);
}

#[test]
fn barycenter_pass_moves_every_node_to_the_mean_of_its_neighbors() {
    let mut graph = sample();
    barycenter_heuristic_solve(&mut graph);
    // Top 0: (-4 + 0) / (2 * 4). Top 1: (-2 - 4 + 0) / (3 * 4). Top 2: no neighbour.
    assert_eq!(pairs(&graph.top_nodes_abscissas), vec![(-4, 8), (-6, 12), (1, 4)]);
    assert_eq!(pairs(&graph.bottom_nodes_abscissas), vec![(-4, 8), (-1, 4), (-4, 8), (2, 4)]);
    assert_eq!(graph.edges, sample().edges);
}

#[test]
fn a_node_without_edges_keeps_its_abscissa() {
    let before = sample();
    let mut graph = sample();
    median_heuristic_solve(&mut graph);
    assert_eq!(pairs(&graph.top_nodes_abscissas[2..]), pairs(&before.top_nodes_abscissas[2..]));
    assert_eq!(pairs(&graph.bottom_nodes_abscissas[3..]), pairs(&before.bottom_nodes_abscissas[3..]));
    let mut graph = sample();
    barycenter_heuristic_solve(&mut graph);
    assert_eq!(pairs(&graph.top_nodes_abscissas[2..]), pairs(&before.top_nodes_abscissas[2..]));
    assert_eq!(pairs(&graph.bottom_nodes_abscissas[3..]), pairs(&before.bottom_nodes_abscissas[3..]));
}

#[test]
fn a_fixed_point_reproduces_itself() {
    // Every node stands where its only neighbour stands.
    let graph = AbscissaGraph {
        top_nodes_abscissas: abscissas(&[(-1, 2), (1, 2), (0, 2)]),
        bottom_nodes_abscissas: abscissas(&[(-1, 2), (1, 2)]),
        edges: vec![(0, 0), (1, 1)],
    };
    let mut moved = graph.clone();
    median_heuristic_solve(&mut moved);
    assert_eq!(pairs(&moved.top_nodes_abscissas), pairs(&graph.top_nodes_abscissas));
    assert_eq!(pairs(&moved.bottom_nodes_abscissas), pairs(&graph.bottom_nodes_abscissas));
    median_heuristic_solve(&mut moved);
    assert_eq!(pairs(&moved.top_nodes_abscissas), pairs(&graph.top_nodes_abscissas));
    let mut moved = graph.clone();
    barycenter_heuristic_solve(&mut moved);
    assert!(same_values(&moved.top_nodes_abscissas, &graph.top_nodes_abscissas));
    assert!(same_values(&moved.bottom_nodes_abscissas, &graph.bottom_nodes_abscissas));
}

#[test]
fn refine_is_a_pass_and_a_rebalance() {
    let mut graph = sample();
    refine(&mut graph, Heuristic::Median);
    let mut expected = sample();
    median_heuristic_solve(&mut expected);
    expected.rebalance_abscissas();
    assert_eq!(pairs(&graph.top_nodes_abscissas), pairs(&expected.top_nodes_abscissas));
    assert_eq!(pairs(&graph.bottom_nodes_abscissas), pairs(&expected.bottom_nodes_abscissas));
    // Top: -1/2, -1/2, 1/4 in order 0, 1, 2. Bottom: -1/2, -1/4, -1/2, 1/2.
    assert_eq!(pairs(&graph.top_nodes_abscissas), vec![(-3, 4), (-1, 4), (1, 4)]);
    assert_eq!(pairs(&graph.bottom_nodes_abscissas), vec![(-4, 4), (0, 4), (-2, 4), (2, 4)]);
}

#[test]
fn iterated_counts_decrease_until_the_last() {
    for rule in [Heuristic::Median, Heuristic::Barycenter] {
        let mut graph = AbscissaGraph::from_bipartite(&inversion(6)).unwrap();
        let initial = line_sweep_crossings(&graph);
        assert_eq!(initial, 15);
        let report = iterate_heuristic(&mut graph, rule, true);
        assert!(!report.is_empty());
        let mut previous = initial;
        for &count in &report[..report.len() - 1] {
            assert!(count < previous);
            previous = count;
        }
        assert!(report[report.len() - 1] >= previous);
        assert_eq!(line_sweep_crossings(&graph), previous);
        assert!(previous <= initial);
    }
}

#[test]
fn iterated_median_undoes_the_pass_that_does_not_improve() {
    // One pass of the median heuristic swaps both layers of the inverted
    // 2 x 2 graph, which leaves its crossing.
    let origin = BipartiteGraph::from_parts(2, 2, 2, vec![(1, 4), (2, 3)]).unwrap();
    let mut graph = AbscissaGraph::from_bipartite(&origin).unwrap();
    let before = graph.clone();
    let report = iterated_median_heuristic_solve(&mut graph, true);
    assert_eq!(report, vec![1]);
    assert_eq!(pairs(&graph.top_nodes_abscissas), pairs(&before.top_nodes_abscissas));
    assert_eq!(pairs(&graph.bottom_nodes_abscissas), pairs(&before.bottom_nodes_abscissas));
    assert_eq!(line_sweep_crossings(&graph), 1);
}

#[test]
fn iterated_barycenter_improves_a_small_graph() {
    // Top node 1 is joined to bottom nodes 1 and 2, top node 0 to bottom node 0
    // and 2, top node 2 to bottom node 0. The first pass orders the top layer
    // 2, 0, 1 and the bottom layer 2, 0, 1, which leaves three crossings.
    let origin = BipartiteGraph::from_parts(3, 3, 5, vec![(2, 5), (2, 6), (1, 4), (1, 6), (3, 4)]).unwrap();
    let mut graph = AbscissaGraph::from_bipartite(&origin).unwrap();
    let initial = line_sweep_crossings(&graph);
    let silent = iterated_barycenter_heuristic_solve(&mut graph.clone(), false);
    assert!(silent.is_empty());
    let report = iterated_barycenter_heuristic_solve(&mut graph, true);
    let last = line_sweep_crossings(&graph);
    assert!(last <= initial);
    assert_eq!(initial, 4);
    assert_eq!(report, vec![3, 3]);
    assert_eq!(last, 3);
    assert_eq!(pairs(&graph.top_nodes_abscissas), vec![(-1, 3), (1, 3), (-3, 3)]);
    assert_eq!(pairs(&graph.bottom_nodes_abscissas), vec![(-1, 3), (1, 3), (-3, 3)]);
}

#[test]
fn algorithms_have_names() {
    assert_eq!(Algorithm::Median.name(), "median");
    assert_eq!(Algorithm::IterMedian.name(), "iterated_median");
    assert_eq!(Algorithm::Barycenter.name(), "barycenter");
    assert_eq!(Algorithm::IterBarycenter.name(), "iterated_barycenter");
}

#[test]
fn solve_applies_the_chosen_algorithm() {
    let origin = BipartiteGraph::from_parts(3, 4, 5, vec![(1, 6), (1, 4), (2, 5), (2, 4), (2, 6)]).unwrap();
    let (solution, report) = solve(&origin, &Algorithm::Median, true).unwrap();
    assert!(report.is_empty());
    assert_eq!((solution.top_node_count, solution.bottom_node_count), (3, 4));
    // Ranks after the pass: top [0, 1, 2] (tie by index), bottom [0, 2, 1, 3].
    assert_eq!(solution.edges, vec![(1, 5), (1, 4), (2, 6), (2, 4), (2, 5)]);
    assert!(solution.is_valid());

    let (solution, _) = solve(&origin, &Algorithm::Barycenter, false).unwrap();
    assert_eq!(solution.edges, vec![(1, 5), (1, 4), (2, 6), (2, 4), (2, 5)]);
}

#[test]
fn solve_never_adds_crossings_when_iterated() {
    for algorithm in [Algorithm::IterMedian, Algorithm::IterBarycenter] {
        for n in 1..8u64 {
            let origin = inversion(n);
            let before = line_sweep_crossings(&origin);
            assert_eq!(before, n * (n - 1) / 2);
            let (solution, report) = solve(&origin, &algorithm, true).unwrap();
            assert!(solution.is_valid());
            assert_eq!(solution.edges.len(), origin.edges.len());
            let after = line_sweep_crossings(&solution);
            assert!(after <= before);
            let accepted = &report[..report.len() - 1];
            assert_eq!(after, accepted.last().copied().unwrap_or(before));
            let (_, silent) = solve(&origin, &algorithm, false).unwrap();
            assert!(silent.is_empty());
        }
    }
}

#[test]
fn solve_rejects_a_graph_with_an_edge_outside_its_layer() {
    let graph = BipartiteGraph { top_node_count: 2, bottom_node_count: 2, edges: vec![(1, 3), (3, 4)] };
    for algorithm in [Algorithm::Median, Algorithm::IterMedian, Algorithm::Barycenter, Algorithm::IterBarycenter] {
        assert_eq!(solve(&graph, &algorithm, false).unwrap_err(), GraphError::IndexOutOfRange);
    }
}

#[test]
fn solve_of_an_empty_graph_is_empty() {
    let (solution, report) = solve(&BipartiteGraph::new(), &Algorithm::IterMedian, true).unwrap();
    assert_eq!((solution.top_node_count, solution.bottom_node_count, solution.edges.len()), (0, 0, 0));
    assert_eq!(report, vec![0]);
}

#[test]
fn a_larger_graph_is_solved_without_adding_crossings() {
    let n = 1500u64;
    let mut state: u64 = 77;
    let mut edges: Vec<(u64, u64)> = Vec::new();
    for _ in 0..4000 {
        state = state.wrapping_mul(6364136223846793005).wrapping_add(1442695040888963407);
        edges.push((1 + (state >> 33) % n, n + 1 + (state >> 11) % n));
    }
    let origin = BipartiteGraph::from_parts(n, n, 4000, edges).unwrap();
    let before = line_sweep_crossings(&origin);
    for algorithm in [Algorithm::IterMedian, Algorithm::IterBarycenter] {
        let (solution, report) = solve(&origin, &algorithm, true).unwrap();
        assert!(solution.is_valid());
        assert_eq!((solution.top_node_count, solution.bottom_node_count), (n, n));
        assert_eq!(solution.edges.len(), 4000);
        let after = line_sweep_crossings(&solution);
        assert!(after <= before);
        assert!(report.len() >= 2, "the first pass of a random graph removes crossings");
        assert!(after < before);
    }
}
