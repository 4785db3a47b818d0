use ocm_solver::abscissa::Abscissa;
use ocm_solver::algo_utils::{
    arrange, edges_lexicographic_sort, edges_min_index_sort, rank_index_array, sorted_array_median,
    sorted_index_array,
};

fn abscissas(pairs: &[(i64, i64)]) -> Vec<Abscissa> {
    pairs.iter().map(|&(num, den)| Abscissa { num, den }).collect()
}

#[test]
fn median_of_nothing_is_nothing() {
    assert!(sorted_array_median(&[]).is_none());
}

#[test]
fn median_of_an_odd_number_is_the_middle() {
    let median = sorted_array_median(&abscissas(&[(-1, 1), (1, 3), (5, 2)])).unwrap();
    assert_eq!((median.num, median.den), (1, 3));
    let median = sorted_array_median(&abscissas(&[(7, 9)])).unwrap();
    assert_eq!((median.num, median.den), (7, 9));
}

#[test]
fn median_of_an_even_number_is_the_midpoint() {
    // (1/3 + 1/2) / 2 = 5/12
    let median = sorted_array_median(&abscissas(&[(-1, 1), (1, 3), (1, 2), (4, 1)])).unwrap();
    assert_eq!((median.num, median.den), (5, 12));
    assert!(median.has_same_value(&Abscissa { num: 10, den: 24 }));
    // (-1 + 1) / 2 = 0
    let median = sorted_array_median(&abscissas(&[(-1, 1), (1, 1)])).unwrap();
    assert_eq!((median.num, median.den), (0, 2));
}

#[test]
fn midpoint_at_the_limit_fits() {
    let limit = 1_073_741_824i64;
    let a = Abscissa::new(limit, limit);
    let b = Abscissa::new(-limit, 1);
    let mid = a.average_with(&b);
    assert_eq!((mid.num, mid.den), (limit - limit * limit, 2 * limit));
    let mid = a.average_with(&a);
    assert_eq!((mid.num, mid.den), (2 * limit * limit, 2 * limit * limit));
}

#[test]
fn abscissas_compare_as_numbers() {
    let third = Abscissa::new(1, 3);
    let half = Abscissa::new(1, 2);
    assert!(third.is_less_than(&half));
    assert!(!half.is_less_than(&third));
    assert!(!half.is_less_than(&half));
    assert!(Abscissa::new(-1, 2).is_less_than(&Abscissa::new(-1, 3)));
    assert!(half.has_same_value(&Abscissa::new(3, 6)));
    assert!(!half.has_same_value(&third));
    assert!(Abscissa::new(i64::MIN, 1).is_less_than(&Abscissa::new(i64::MIN, i64::MAX)));
    assert!(Abscissa::new(i64::MAX, i64::MAX).is_less_than(&Abscissa::new(i64::MAX, 1)));
}

#[test]
fn sorted_indices_point_to_ascending_values() {
    let values: Vec<u64> = vec![30, 10, 20, 10, 0];
    assert_eq!(sorted_index_array(&values), vec![4, 1, 3, 2, 0]);
    assert_eq!(sorted_index_array::<u64>(&[]), Vec::<usize>::new());
    assert_eq!(sorted_index_array(&[7u64]), vec![0]);
}

#[test]
fn sorted_indices_of_abscissas() {
    let values = abscissas(&[(1, 2), (1, 3), (-1, 1), (2, 4), (2, 6)]);
    assert_eq!(sorted_index_array(&values), vec![2, 1, 4, 0, 3]);
}

#[test]
fn ranks_invert_sorted_indices() {
    let values: Vec<u64> = vec![30, 10, 20, 10, 0];
    assert_eq!(rank_index_array(&values), vec![4, 1, 3, 2, 0]);
    let values: Vec<u64> = vec![5, 9, 1, 7];
    assert_eq!(sorted_index_array(&values), vec![2, 0, 3, 1]);
    assert_eq!(rank_index_array(&values), vec![1, 3, 0, 2]);
    assert_eq!(rank_index_array::<u64>(&[]), Vec::<usize>::new());
}

#[test]
fn sorting_many_values_agrees_with_the_standard_sort() {
    let mut state: u64 = 12345;
    let mut values: Vec<u64> = Vec::new();
    for _ in 0..1000 {
        state = state.wrapping_mul(6364136223846793005).wrapping_add(1442695040888963407);
        values.push((state >> 33) % 50);
    }
    let order = sorted_index_array(&values);
    let mut expected: Vec<usize> = (0..values.len()).collect();
    expected.sort_by_key(|&i| values[i]);
    assert_eq!(order, expected);
    let ranks = rank_index_array(&values);
    for (rank, &index) in order.iter().enumerate() {
        assert_eq!(ranks[index], rank);
    }
}

#[test]
fn arrange_follows_the_order() {
    assert_eq!(arrange(&vec!['a', 'b', 'c'], &vec![2, 0, 1, 0]), vec!['c', 'a', 'b', 'a']);
}

#[test]
fn lexicographic_sort_orders_by_first_then_second() {
    let mut edges = vec![(2, 1), (1, 9), (2, 0), (1, 3), (0, 7), (1, 3)];
    edges_lexicographic_sort(&mut edges);
    assert_eq!(edges, vec![(0, 7), (1, 3), (1, 3), (1, 9), (2, 0), (2, 1)]);
}

#[test]
fn min_index_sort_orders_by_smaller_endpoint_and_is_stable() {
    let mut edges = vec![(5, 1), (0, 9), (1, 1), (3, 0), (2, 7), (1, 8)];
    edges_min_index_sort(&mut edges);
    assert_eq!(edges, vec![(0, 9), (3, 0), (5, 1), (1, 1), (1, 8), (2, 7)]);
    let mut edges: Vec<(u64, u64)> = vec![];
    edges_min_index_sort(&mut edges);
    assert!(edges.is_empty());
}
