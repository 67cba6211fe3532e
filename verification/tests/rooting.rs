use mincut_sat::sk1flow::graph::make_rooted;

fn branching() -> Vec<Vec<usize>> {
    vec![vec![1], vec![0, 2], vec![1, 3, 4], vec![2], vec![2]]
}

#[test]
fn rooting_at_an_end_keeps_the_edges_that_lead_away() {
    let mut tree = branching();
    make_rooted(&mut tree, 0);
    assert_eq!(tree, vec![vec![1], vec![2], vec![3, 4], vec![], vec![]]);
}

#[test]
fn rooting_in_the_middle_turns_the_path_round() {
    let mut tree = branching();
    make_rooted(&mut tree, 2);
    assert_eq!(tree, vec![vec![], vec![0], vec![1, 3, 4], vec![], vec![]]);
}

#[test]
fn rooting_a_leaf_of_the_branch() {
    let mut tree = branching();
    make_rooted(&mut tree, 4);
    assert_eq!(tree, vec![vec![], vec![0], vec![1, 3], vec![], vec![2]]);
}

#[test]
fn a_single_vertex_is_its_own_root() {
    let mut tree: Vec<Vec<usize>> = vec![vec![]];
    make_rooted(&mut tree, 0);
    assert_eq!(tree, vec![Vec::<usize>::new()]);
}

#[test]
fn rooting_keeps_the_weights_of_the_edges() {
    let mut tree: Vec<Vec<(usize, u32)>> = vec![vec![(1, 7)], vec![(0, 7), (2, 9)], vec![(1, 9)]];
    make_rooted(&mut tree, 0);
    assert_eq!(tree, vec![vec![(1, 7)], vec![(2, 9)], vec![]]);
}
