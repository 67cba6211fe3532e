use mincut_sat::sk1flow::capacity::Capacity;
use mincut_sat::sk1flow::graph::{Edge, WeightedEdge};
use mincut_sat::sk1flow::SK1Flow;
use num::BigUint;

fn capacities(flow: &SK1Flow<usize>) -> Vec<(usize, usize)> {
    flow.edges().iter().map(|edge| (edge.0, edge.1)).collect()
}

#[test]
fn bottleneck_behind_a_wide_edge() {
    let graph: Vec<Vec<(usize, usize)>> = vec![vec![(1, 10)], vec![(2, 1)], vec![]];
    let mut flow = SK1Flow::from_graph(&graph, vec![100, 0, 0]);
    assert_eq!(flow.flow(2), 1);
    assert_eq!(flow.cut(2), vec![true, true, false]);
    assert_eq!(flow.excess(), &vec![90, 9, 0]);
    assert_eq!(capacities(&flow), vec![(1, 0), (0, 10), (2, 0), (1, 1)]);
}

#[test]
fn excess_stuck_behind_a_full_edge_returns_to_the_source() {
    let graph: Vec<Vec<(usize, usize)>> =
        vec![vec![(1, 100), (2, 100)], vec![(3, 1)], vec![(3, 7)], vec![]];
    let mut flow = SK1Flow::from_graph(&graph, vec![100, 0, 0, 0]);
    assert_eq!(flow.flow(3), 8);
    assert_eq!(flow.cut(3), vec![true, true, true, false]);
    let left: usize = flow.excess().iter().sum();
    assert_eq!(left, 92);
    assert_eq!(flow.excess()[3], 0);
}

#[test]
fn flow_equals_capacity_of_the_cut() {
    let graph: Vec<Vec<(usize, usize)>> = vec![
        vec![(1, 16), (2, 13)],
        vec![(2, 10), (3, 12)],
        vec![(1, 4), (4, 14)],
        vec![(2, 9), (5, 20)],
        vec![(3, 7), (5, 4)],
        vec![],
    ];
    let mut flow = SK1Flow::from_graph(&graph, vec![1000, 0, 0, 0, 0, 0]);
    let value = flow.flow(5);
    assert_eq!(value, 23);
    let cut = flow.cut(5);
    assert!(cut[0]);
    assert!(!cut[5]);
    let mut capacity = 0;
    for (from, edges) in graph.iter().enumerate() {
        for &(to, weight) in edges {
            if cut[from] && !cut[to] {
                capacity += weight;
            }
        }
    }
    assert_eq!(capacity, value);
}

#[test]
fn too_little_excess_all_reaches_the_sink() {
    let graph: Vec<Vec<(usize, usize)>> = vec![vec![(1, 5)], vec![]];
    let mut flow = SK1Flow::from_graph(&graph, vec![1, 0]);
    assert_eq!(flow.flow(1), 1);
    assert_eq!(flow.cut(1), vec![false, false]);
}

#[test]
fn edges_are_added_in_pairs() {
    let mut flow: SK1Flow<usize> = SK1Flow::new();
    flow.add_vertex(5);
    flow.add_vertex(0);
    flow.add_edge(0, 1, 3);
    flow.add_double_edge(1, 0, 2, 4);
    assert_eq!(capacities(&flow), vec![(1, 3), (0, 0), (0, 2), (1, 4)]);
    assert_eq!(flow.excess(), &vec![5, 0]);
    assert_eq!(flow.flow(1), 5);
    assert_eq!(capacities(&flow), vec![(1, 0), (0, 3), (0, 4), (1, 2)]);
}

#[test]
fn unbounded_capacities_flow_alike() {
    let big = |x: u64| BigUint::from(x);
    let huge = BigUint::from(1u32) << 100usize;
    let graph: Vec<Vec<(usize, BigUint)>> = vec![
        vec![(1, huge.clone())],
        vec![(2, big(1) << 70usize)],
        vec![],
    ];
    let mut flow = SK1Flow::from_graph(&graph, vec![huge, big(0), big(0)]);
    assert_eq!(flow.flow(2), big(1) << 70usize);
    assert_eq!(flow.cut(2), vec![true, true, false]);
}

#[test]
fn big_capacities_add_subtract_and_compare() {
    let mut a = BigUint::from(7u32);
    let b = BigUint::from(5u32);
    Capacity::increase(&mut a, &b);
    assert_eq!(a, BigUint::from(12u32));
    Capacity::decrease(&mut a, &b);
    assert_eq!(a, BigUint::from(7u32));
    assert_eq!(Capacity::smaller(&a, &b), BigUint::from(5u32));
    assert_eq!(Capacity::smaller(&b, &a), BigUint::from(5u32));
    assert_eq!(Capacity::duplicate(&a), BigUint::from(7u32));
    assert!(!Capacity::is_zero(&a));
    let zero: BigUint = Capacity::zero();
    assert!(Capacity::is_zero(&zero));
    assert_eq!(zero, BigUint::from(0u32));
}

#[test]
fn word_capacities_add_subtract_and_compare() {
    let mut a: usize = 7;
    Capacity::increase(&mut a, &5);
    assert_eq!(a, 12);
    Capacity::decrease(&mut a, &2);
    assert_eq!(a, 10);
    assert_eq!(Capacity::smaller(&a, &3), 3);
    assert!(Capacity::is_zero(&0usize));
    assert!(!Capacity::is_zero(&a));
}

#[test]
fn edges_know_their_targets_and_weights() {
    assert_eq!(Edge::to(&7usize), 7);
    assert_eq!(Edge::to(&7u8), 7);
    assert_eq!(Edge::to(&7i32), 7);
    assert_eq!(Edge::to(&300u64), 300);
    assert_eq!(Edge::to(&-1i8), usize::MAX);
    let mut edge: (usize, u32) = (4, 9);
    assert_eq!(Edge::to(&edge), 4);
    assert_eq!(*WeightedEdge::weight(&edge), 9);
    *WeightedEdge::weight_mut(&mut edge) = 11;
    assert_eq!(edge, (4, 11));
}

#[test]
fn a_second_flow_moves_nothing() {
    let mut flow = SK1Flow::from_graph(&vec![vec![(2usize, 5usize)], vec![], vec![(1, 3)]], vec![10, 0, 0]);
    assert_eq!(flow.flow(1), 3);
    assert_eq!(flow.excess(), &vec![5, 0, 2]);
    assert_eq!(flow.edges(), &vec![(2, 0), (0, 5), (1, 0), (2, 3)]);
    assert_eq!(flow.flow(1), 0);
    assert_eq!(flow.excess(), &vec![5, 0, 2]);
    assert_eq!(flow.edges(), &vec![(2, 0), (0, 5), (1, 0), (2, 3)]);
}
