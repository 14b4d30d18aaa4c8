use lib::ir::{DiagramKind, Edge, EdgeStyle, Graph};
use lib::ordering::median_position;
use lib::ranking::{compute_ranks_subset, order_rank_nodes, rank_edges_for_manual_layout};

fn edge(from: &str, to: &str) -> Edge {
    Edge {
        from: from.to_string(),
        to: to.to_string(),
        label: None,
        start_label: None,
        end_label: None,
        directed: true,
        arrow_start: false,
        arrow_end: true,
        style: EdgeStyle::Solid,
    }
}

fn names(ids: &[&str]) -> Vec<String> {
    ids.iter().map(|s| s.to_string()).collect()
}

fn rank_of(nodes: &[String], ranks: &[usize], id: &str) -> usize {
    let pos = nodes.iter().position(|n| n == id).unwrap();
    ranks[pos]
}

#[test]
fn compute_ranks_linear_chain() {
    let nodes = names(&["A", "B", "C"]);
    let edges = vec![edge("A", "B"), edge("B", "C")];
    let ranks = compute_ranks_subset(&nodes, &edges, &Vec::new());
    assert_eq!(rank_of(&nodes, &ranks, "A"), 0);
    assert_eq!(rank_of(&nodes, &ranks, "B"), 1);
    assert_eq!(rank_of(&nodes, &ranks, "C"), 2);
}

#[test]
fn compute_ranks_diamond() {
    let nodes = names(&["A", "B", "C", "D"]);
    let edges = vec![edge("A", "B"), edge("A", "C"), edge("B", "D"), edge("C", "D")];
    let ranks = compute_ranks_subset(&nodes, &edges, &Vec::new());
    assert_eq!(rank_of(&nodes, &ranks, "A"), 0);
    assert_eq!(rank_of(&nodes, &ranks, "B"), 1);
    assert_eq!(rank_of(&nodes, &ranks, "C"), 1);
    assert_eq!(rank_of(&nodes, &ranks, "D"), 2);
}

#[test]
fn compute_ranks_handles_cycle() {
    let nodes = names(&["A", "B", "C"]);
    let edges = vec![edge("A", "B"), edge("B", "C"), edge("C", "A")];
    let ranks = compute_ranks_subset(&nodes, &edges, &Vec::new());
    assert_eq!(ranks.len(), 3);
    assert_eq!(rank_of(&nodes, &ranks, "A"), 0);
    assert_eq!(rank_of(&nodes, &ranks, "B"), 1);
    assert_eq!(rank_of(&nodes, &ranks, "C"), 2);
}

#[test]
fn compute_ranks_places_downstream_after_cycle_component() {
    let nodes = names(&["A", "B", "C", "D"]);
    let edges = vec![edge("A", "B"), edge("B", "C"), edge("C", "A"), edge("C", "D")];
    let ranks = compute_ranks_subset(&nodes, &edges, &Vec::new());
    let r = |id: &str| rank_of(&nodes, &ranks, id);
    let cycle_max = r("A").max(r("B")).max(r("C"));
    assert_eq!(cycle_max, 2);
    assert_eq!(r("D"), cycle_max + 1);
}

#[test]
fn compute_ranks_cycle_with_entry_and_exit_respects_external_precedence() {
    let nodes = names(&["S", "A", "B", "T"]);
    let edges = vec![edge("S", "A"), edge("A", "B"), edge("B", "A"), edge("B", "T")];
    let ranks = compute_ranks_subset(&nodes, &edges, &Vec::new());
    let r = |id: &str| rank_of(&nodes, &ranks, id);
    let cycle_min = r("A").min(r("B"));
    let cycle_max = r("A").max(r("B"));
    assert!(cycle_min > r("S"));
    assert!(r("T") > cycle_max);
}

#[test]
fn compute_ranks_cycle_respects_entry_and_exit_when_cycle_order_flips() {
    let nodes = names(&["S", "B", "A", "T"]);
    let edges = vec![edge("S", "B"), edge("A", "B"), edge("B", "A"), edge("A", "T")];
    let ranks = compute_ranks_subset(&nodes, &edges, &Vec::new());
    let r = |id: &str| rank_of(&nodes, &ranks, id);
    let cycle_min = r("A").min(r("B"));
    let cycle_max = r("A").max(r("B"));
    assert!(cycle_min > r("S"));
    assert!(r("T") > cycle_max);
}

#[test]
fn compute_ranks_disconnected_nodes() {
    let nodes = names(&["A", "B", "C"]);
    let edges = vec![edge("A", "B")];
    let ranks = compute_ranks_subset(&nodes, &edges, &Vec::new());
    assert_eq!(rank_of(&nodes, &ranks, "A"), 0);
    assert_eq!(rank_of(&nodes, &ranks, "B"), 1);
    assert_eq!(rank_of(&nodes, &ranks, "C"), 0);
}

#[test]
fn compute_ranks_ignores_edges_to_unlisted_nodes() {
    let nodes = names(&["A", "B"]);
    let edges = vec![edge("A", "X"), edge("X", "B"), edge("B", "A")];
    let ranks = compute_ranks_subset(&nodes, &edges, &Vec::new());
    assert_eq!(rank_of(&nodes, &ranks, "B"), 0);
    assert_eq!(rank_of(&nodes, &ranks, "A"), 1);
}

#[test]
fn compute_ranks_gives_repeated_names_one_rank() {
    let nodes = names(&["A", "B", "A"]);
    let edges = vec![edge("A", "B")];
    let ranks = compute_ranks_subset(&nodes, &edges, &Vec::new());
    assert_eq!(ranks, vec![0, 1, 0]);
}

#[test]
fn compute_ranks_follows_the_given_order_among_sources() {
    let nodes = names(&["A", "B"]);
    let edges = vec![edge("A", "B"), edge("B", "A")];
    let order = vec![("B".to_string(), 0usize), ("A".to_string(), 1usize)];
    let ranks = compute_ranks_subset(&nodes, &edges, &order);
    assert_eq!(rank_of(&nodes, &ranks, "B"), 0);
    assert_eq!(rank_of(&nodes, &ranks, "A"), 1);
}

#[test]
fn median_position_with_no_neighbors() {
    let doubled = median_position(&Vec::new(), 3);
    assert_eq!(doubled as f64 / 2.0, 3.0);
}

#[test]
fn median_position_odd_count() {
    let doubled = median_position(&vec![1, 5, 9], 0);
    assert_eq!(doubled as f64 / 2.0, 5.0);
}

#[test]
fn median_position_even_count_averages_the_middle_pair() {
    assert_eq!(median_position(&vec![8, 2, 4, 6], 0), 10);
    assert_eq!(median_position(&vec![7, 0], 0), 7);
}

#[test]
fn order_rank_nodes_reduces_crossings() {
    let edges = vec![edge("A", "D"), edge("B", "E"), edge("C", "F")];
    let mut rank_nodes = vec![names(&["A", "B", "C"]), names(&["F", "D", "E"])];
    order_rank_nodes(&mut rank_nodes, &edges, &Vec::new(), 3);
    let pos = |id: &str| rank_nodes[1].iter().position(|n| n == id).unwrap();
    assert!(pos("D") < pos("E"), "D should precede E, got {:?}", rank_nodes[1]);
    assert!(pos("E") < pos("F"), "E should precede F, got {:?}", rank_nodes[1]);
}

#[test]
fn order_rank_nodes_leaves_a_single_rank_alone() {
    let edges = vec![edge("A", "B")];
    let mut rank_nodes = vec![names(&["B", "A"])];
    order_rank_nodes(&mut rank_nodes, &edges, &Vec::new(), 2);
    assert_eq!(rank_nodes, vec![names(&["B", "A"])]);
}

#[test]
fn order_rank_nodes_keeps_each_rank_s_names() {
    let edges = vec![edge("A", "E"), edge("B", "D"), edge("C", "D")];
    let mut rank_nodes = vec![names(&["A", "B", "C"]), names(&["D", "E"])];
    order_rank_nodes(&mut rank_nodes, &edges, &Vec::new(), 1);
    let mut first = rank_nodes[0].clone();
    first.sort();
    let mut second = rank_nodes[1].clone();
    second.sort();
    assert_eq!(first, names(&["A", "B", "C"]));
    assert_eq!(second, names(&["D", "E"]));
}

fn styled(from: &str, to: &str, style: EdgeStyle) -> Edge {
    let mut e = edge(from, to);
    e.style = style;
    e
}

#[test]
fn rank_edges_prefers_non_dotted_flow_edges_when_coverage_is_good() {
    let graph = Graph::new();
    let nodes = names(&["A", "B", "C", "D"]);
    let edges = vec![
        styled("A", "B", EdgeStyle::Solid),
        styled("B", "C", EdgeStyle::Solid),
        styled("C", "D", EdgeStyle::Solid),
        styled("A", "D", EdgeStyle::Dotted),
    ];
    let rank_edges = rank_edges_for_manual_layout(&graph, &nodes, &edges);
    assert_eq!(rank_edges.len(), 3);
    assert!(rank_edges.iter().all(|edge| edge.style != EdgeStyle::Dotted));
}

#[test]
fn rank_edges_falls_back_when_primary_coverage_is_too_small() {
    let graph = Graph::new();
    let nodes = names(&["A", "B", "C", "D", "E"]);
    let edges = vec![
        styled("A", "B", EdgeStyle::Solid),
        styled("C", "D", EdgeStyle::Dotted),
        styled("D", "E", EdgeStyle::Dotted),
        styled("E", "C", EdgeStyle::Dotted),
    ];
    let rank_edges = rank_edges_for_manual_layout(&graph, &nodes, &edges);
    assert_eq!(rank_edges.len(), edges.len());
}

#[test]
fn rank_edges_keeps_everything_outside_flowcharts_and_for_few_edges() {
    let mut graph = Graph::new();
    let nodes = names(&["A", "B"]);
    let few = vec![styled("A", "B", EdgeStyle::Solid), styled("B", "A", EdgeStyle::Dotted)];
    assert_eq!(rank_edges_for_manual_layout(&graph, &nodes, &few).len(), 2);
    graph.kind = DiagramKind::State;
    let many = vec![
        styled("A", "B", EdgeStyle::Solid),
        styled("B", "A", EdgeStyle::Dotted),
        styled("A", "B", EdgeStyle::Thick),
    ];
    assert_eq!(rank_edges_for_manual_layout(&graph, &nodes, &many).len(), 3);
}

#[test]
fn compute_ranks_edge_between_two_cycles_goes_down() {
    let nodes = names(&["A", "B", "C", "D"]);
    let edges = vec![edge("A", "B"), edge("B", "A"), edge("B", "C"), edge("C", "D"), edge("D", "C")];
    let ranks = compute_ranks_subset(&nodes, &edges, &Vec::new());
    let r = |id: &str| rank_of(&nodes, &ranks, id);
    assert!(r("C") > r("B"));
    assert!(r("C").min(r("D")) > r("A").max(r("B")));
    assert!(ranks.iter().all(|&x| x < 4));
}

#[test]
fn compute_ranks_starts_a_cycle_at_its_first_node_in_the_given_order() {
    let nodes = names(&["A", "B", "C"]);
    let edges = vec![edge("A", "B"), edge("B", "C"), edge("C", "A")];
    let order = vec![("C".to_string(), 0usize), ("A".to_string(), 1usize), ("B".to_string(), 2usize)];
    let ranks = compute_ranks_subset(&nodes, &edges, &order);
    assert_eq!(rank_of(&nodes, &ranks, "C"), 0);
    assert_eq!(rank_of(&nodes, &ranks, "A"), 1);
    assert_eq!(rank_of(&nodes, &ranks, "B"), 2);
}

#[test]
fn compute_ranks_breaks_equal_order_values_in_a_cycle_by_name() {
    let nodes = names(&["B", "A"]);
    let edges = vec![edge("A", "B"), edge("B", "A")];
    let order = vec![("B".to_string(), 5usize), ("A".to_string(), 5usize)];
    let ranks = compute_ranks_subset(&nodes, &edges, &order);
    assert_eq!(rank_of(&nodes, &ranks, "A"), 0);
    assert_eq!(rank_of(&nodes, &ranks, "B"), 1);
}
