use lib::sankey::sankey_ranks;

#[test]
fn sankey_ranks_follow_a_chain() {
    assert_eq!(sankey_ranks(3, &vec![(0, 1), (1, 2)]), vec![0, 1, 2]);
}

#[test]
fn sankey_ranks_take_the_longest_chain() {
    // 0 -> 1 -> 2 and a shortcut 0 -> 2: node 2 sits two ranks down
    assert_eq!(sankey_ranks(3, &vec![(0, 2), (0, 1), (1, 2)]), vec![0, 1, 2]);
}

#[test]
fn sankey_ranks_of_a_diamond() {
    assert_eq!(sankey_ranks(4, &vec![(0, 1), (0, 2), (1, 3), (2, 3)]), vec![0, 1, 1, 2]);
}

#[test]
fn sankey_ranks_are_zero_when_links_form_a_cycle() {
    assert_eq!(sankey_ranks(4, &vec![(0, 1), (1, 2), (2, 1), (2, 3)]), vec![0, 0, 0, 0]);
}

#[test]
fn sankey_ranks_are_zero_with_a_self_link() {
    assert_eq!(sankey_ranks(2, &vec![(0, 1), (1, 1)]), vec![0, 0]);
}

#[test]
fn sankey_ranks_of_unlinked_nodes_and_repeated_links() {
    assert_eq!(sankey_ranks(4, &vec![(2, 3), (2, 3)]), vec![0, 0, 0, 1]);
    assert_eq!(sankey_ranks(0, &vec![]), Vec::<usize>::new());
}

#[test]
fn sankey_ranks_order_of_links_does_not_matter() {
    let a = sankey_ranks(5, &vec![(3, 4), (0, 1), (1, 3), (0, 2), (2, 3)]);
    let b = sankey_ranks(5, &vec![(0, 2), (2, 3), (3, 4), (1, 3), (0, 1)]);
    assert_eq!(a, vec![0, 1, 1, 2, 3]);
    assert_eq!(a, b);
}

use lib::ir::{Edge, EdgeStyle};
use lib::sankey::sankey_graph;

fn link(from: &str, to: &str) -> Edge {
    Edge {
        from: from.to_string(),
        to: to.to_string(),
        label: Some("3".to_string()),
        start_label: None,
        end_label: None,
        directed: true,
        arrow_start: false,
        arrow_end: true,
        style: EdgeStyle::Solid,
    }
}

fn names(ids: &[&str]) -> Vec<String> {
    ids.iter().map(|s| s.to_string()).collect()
}

#[test]
fn sankey_graph_orders_nodes_and_ranks_links() {
    let ids = names(&["A", "B", "C"]);
    let order = vec![("C".to_string(), 0usize)];
    let edges = vec![link("A", "B"), link("C", "A"), link("B", "X")];
    let g = sankey_graph(&ids, &order, &edges);
    assert_eq!(g.node_ids, names(&["C", "A", "B"]));
    assert_eq!(g.links, vec![(1, 2, 0), (0, 1, 1)]);
    assert_eq!(g.ranks, vec![0, 1, 2]);
    assert_eq!(g.rank_nodes, vec![vec![0], vec![1], vec![2]]);
    assert_eq!(g.outbound, vec![vec![1], vec![0], vec![]]);
}

#[test]
fn sankey_graph_stacks_links_by_target_rank_then_name() {
    let ids = names(&["M", "S", "T1", "T2"]);
    let edges = vec![link("S", "T2"), link("S", "M"), link("M", "T1"), link("S", "T1")];
    let g = sankey_graph(&ids, &Vec::new(), &edges);
    assert_eq!(g.node_ids, names(&["M", "S", "T1", "T2"]));
    assert_eq!(g.ranks, vec![1, 0, 2, 1]);
    assert_eq!(g.rank_nodes, vec![vec![1], vec![0, 3], vec![2]]);
    // from S: T1 (rank 2) first, then M and T2 (rank 1) by name
    assert_eq!(g.outbound[1], vec![3, 1, 0]);
}

#[test]
fn sankey_graph_with_a_cycle_keeps_every_node_on_rank_zero() {
    let ids = names(&["A", "B"]);
    let edges = vec![link("A", "B"), link("B", "A")];
    let g = sankey_graph(&ids, &Vec::new(), &edges);
    assert_eq!(g.ranks, vec![0, 0]);
    assert_eq!(g.rank_nodes, vec![vec![0, 1]]);
}

#[test]
fn sankey_graph_of_no_nodes_has_one_empty_rank() {
    let g = sankey_graph(&Vec::new(), &Vec::new(), &Vec::new());
    assert!(g.node_ids.is_empty());
    assert_eq!(g.rank_nodes, vec![Vec::<usize>::new()]);
}
