use lib::digraph::{layered_ranks_from_order, stable_topology_order};

#[test]
fn stable_topology_order_takes_least_ready_item() {
    // Edges 0 -> 2 and 1 -> 3; keys 3, 0, 1, 2 for the items 0..4.
    let items = vec![0usize, 1, 2, 3];
    let adj = vec![vec![2], vec![3], vec![], vec![]];
    let rev = vec![vec![], vec![], vec![0], vec![1]];
    let key = vec![3usize, 0, 1, 2];
    let tie = vec![0usize, 1, 2, 3];
    assert_eq!(stable_topology_order(&items, &adj, &rev, &key, &tie), vec![1, 3, 0, 2]);
}

#[test]
fn stable_topology_order_falls_back_to_least_item_on_a_cycle() {
    // 0 -> 1 -> 2 -> 0: nothing is ready, so the least key goes first.
    let items = vec![0usize, 1, 2];
    let adj = vec![vec![1], vec![2], vec![0]];
    let rev = vec![vec![2], vec![0], vec![1]];
    let key = vec![5usize, 1, 7];
    let tie = vec![0usize, 1, 2];
    assert_eq!(stable_topology_order(&items, &adj, &rev, &key, &tie), vec![1, 2, 0]);
}

#[test]
fn layered_ranks_are_longest_paths_along_the_order() {
    // Diamond 0 -> 1, 0 -> 2, 1 -> 3, 2 -> 3, plus 3 -> 4 and isolated 5.
    let order = vec![0usize, 1, 2, 3, 4, 5];
    let adj = vec![vec![1, 2], vec![3], vec![3], vec![4], vec![], vec![]];
    let mut ranks = vec![0usize; 6];
    layered_ranks_from_order(&order, &adj, &mut ranks);
    assert_eq!(ranks, vec![0, 1, 1, 2, 3, 0]);
}
