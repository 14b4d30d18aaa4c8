use lib::ir::{DiagramKind, Direction, Edge, EdgeStyle, Graph, Subgraph};
use lib::subgraphs::{
    flowchart_subgraph_internal_edge_count, is_region_subgraph, pick_subgraph_anchor_child,
    subgraph_anchor_id, subgraph_anchor_ids, subgraph_is_anchorable, subgraph_layout_direction,
    subgraph_should_anchor, top_level_subgraph_indices, SubgraphTree,
};

fn sub(id: Option<&str>, label: &str, nodes: &[&str]) -> Subgraph {
    Subgraph {
        id: id.map(|s| s.to_string()),
        label: label.to_string(),
        nodes: nodes.iter().map(|s| s.to_string()).collect(),
        direction: None,
    }
}

fn edge(from: &str, to: &str) -> Edge {
    Edge {
        from: from.to_string(),
        to: to.to_string(),
        label: None,
        start_label: None,
        end_label: None,
        directed: true,
        arrow_start: false,
        arrow_end: true,
        style: EdgeStyle::Solid,
    }
}

#[test]
fn region_subgraphs_have_blank_labels_and_region_ids() {
    assert!(is_region_subgraph(&sub(Some("__region_1"), "  ", &["A"])));
    assert!(is_region_subgraph(&sub(Some("__region_"), "", &[])));
    assert!(!is_region_subgraph(&sub(Some("__region_1"), "Name", &["A"])));
    assert!(!is_region_subgraph(&sub(Some("region_1"), "", &["A"])));
    assert!(!is_region_subgraph(&sub(Some("__regio"), "", &["A"])));
    assert!(!is_region_subgraph(&sub(None, "", &["A"])));
}

#[test]
fn subgraph_tree_nests_by_member_sets() {
    let mut graph = Graph::new();
    graph.subgraphs.push(sub(Some("outer"), "Outer", &["A", "B", "C", "D"]));
    graph.subgraphs.push(sub(Some("inner"), "Inner", &["A", "B"]));
    graph.subgraphs.push(sub(Some("middle"), "Middle", &["A", "B", "C"]));
    graph.subgraphs.push(sub(Some("other"), "Other", &["X"]));
    let tree = SubgraphTree::build(&graph);
    assert_eq!(tree.parent, vec![None, Some(2), Some(0), None]);
    assert_eq!(tree.children, vec![vec![2], vec![], vec![1], vec![]]);
    assert_eq!(tree.top_level, vec![0, 3]);
    assert!(tree.is_ancestor(0, 1));
    assert!(tree.is_ancestor(2, 1));
    assert!(!tree.is_ancestor(1, 0));
    assert!(tree.are_siblings(0, 3));
    assert!(tree.are_siblings(3, 1));
    assert!(!tree.are_siblings(0, 1));
    assert!(!tree.are_siblings(2, 2));
    assert_eq!(top_level_subgraph_indices(&graph), vec![0, 3]);
}

#[test]
fn subgraph_tree_needs_strictly_more_members() {
    let mut graph = Graph::new();
    graph.subgraphs.push(sub(Some("a"), "A", &["A", "B"]));
    graph.subgraphs.push(sub(Some("b"), "B", &["B", "A", "A"]));
    let tree = SubgraphTree::build(&graph);
    assert_eq!(tree.parent, vec![None, None]);
    assert!(tree.are_siblings(0, 1));
}

#[test]
fn subgraph_layout_direction_follows_the_diagram_for_state() {
    let mut graph = Graph::new();
    graph.direction = Direction::TopDown;
    let mut s = sub(Some("s"), "S", &["A"]);
    assert_eq!(subgraph_layout_direction(&graph, &s), Direction::TopDown);
    s.direction = Some(Direction::LeftRight);
    assert_eq!(subgraph_layout_direction(&graph, &s), Direction::LeftRight);
    graph.kind = DiagramKind::State;
    assert_eq!(subgraph_layout_direction(&graph, &s), Direction::TopDown);
}

#[test]
fn internal_edges_have_both_ends_inside() {
    let mut graph = Graph::new();
    graph.edges = vec![edge("A", "B"), edge("B", "C"), edge("C", "A"), edge("B", "B")];
    let s = sub(Some("s"), "S", &["A", "B"]);
    assert_eq!(flowchart_subgraph_internal_edge_count(&graph, &s), 2);
}

#[test]
fn anchor_child_prefers_non_anchors_first_in_order() {
    let mut graph = Graph::new();
    graph.node_order = vec![("C".to_string(), 0), ("B".to_string(), 1), ("A".to_string(), 2)];
    let s = sub(Some("s"), "S", &["A", "B", "C", "D"]);
    let anchors = vec!["C".to_string()];
    assert_eq!(pick_subgraph_anchor_child(&s, &graph, &anchors), Some("B".to_string()));
    assert_eq!(pick_subgraph_anchor_child(&s, &graph, &Vec::new()), Some("C".to_string()));
    let all = vec!["A".to_string(), "B".to_string(), "C".to_string(), "D".to_string()];
    assert_eq!(pick_subgraph_anchor_child(&s, &graph, &all), Some("C".to_string()));
    let unordered = sub(Some("u"), "U", &["Q", "P"]);
    assert_eq!(pick_subgraph_anchor_child(&unordered, &graph, &Vec::new()), Some("Q".to_string()));
    let empty = sub(Some("e"), "E", &[]);
    assert_eq!(pick_subgraph_anchor_child(&empty, &graph, &Vec::new()), None);
}

fn ids(v: &[&str]) -> Vec<String> {
    v.iter().map(|s| s.to_string()).collect()
}

#[test]
fn subgraph_anchor_id_prefers_explicit_id_before_label() {
    let layout_ids = ids(&["cluster_1", "Cluster"]);
    let s = Subgraph {
        id: Some("cluster_1".to_string()),
        label: "Cluster".to_string(),
        nodes: vec!["A".to_string(), "B".to_string()],
        direction: None,
    };
    assert_eq!(subgraph_anchor_id(&s, &layout_ids).as_deref(), Some("cluster_1"));
}

#[test]
fn subgraph_anchor_id_ignores_anchor_when_it_is_a_member() {
    let layout_ids = ids(&["cluster_1"]);
    let s = Subgraph {
        id: Some("cluster_1".to_string()),
        label: "Cluster".to_string(),
        nodes: vec!["cluster_1".to_string(), "A".to_string()],
        direction: None,
    };
    assert_eq!(subgraph_anchor_id(&s, &layout_ids), None);
}

#[test]
fn subgraph_anchor_id_falls_back_to_the_label() {
    let layout_ids = ids(&["Cluster", "A"]);
    let s = sub(Some("cluster_9"), "Cluster", &["A"]);
    assert_eq!(subgraph_anchor_id(&s, &layout_ids).as_deref(), Some("Cluster"));
    let unnamed = sub(None, "Nothing", &["A"]);
    assert_eq!(subgraph_anchor_id(&unnamed, &layout_ids), None);
}

#[test]
fn anchorable_subgraphs_have_no_crossing_edges() {
    let mut graph = Graph::new();
    graph.kind = DiagramKind::Class;
    let layout_ids = ids(&["A", "B", "C", "G"]);
    let s = sub(Some("G"), "Group", &["A", "B"]);
    graph.edges = vec![edge("A", "B")];
    assert!(subgraph_is_anchorable(&s, &graph, &layout_ids));
    assert!(subgraph_should_anchor(&s, &graph, &layout_ids));
    graph.edges.push(edge("B", "C"));
    assert!(!subgraph_is_anchorable(&s, &graph, &layout_ids));
    graph.edges = vec![edge("G", "C")];
    assert!(!subgraph_is_anchorable(&s, &graph, &layout_ids));
    graph.kind = DiagramKind::Flowchart;
    assert!(subgraph_should_anchor(&s, &graph, &layout_ids));
    let no_anchor = sub(Some("H"), "Other", &["A"]);
    assert!(!subgraph_should_anchor(&no_anchor, &graph, &layout_ids));
    let empty = sub(Some("G"), "Group", &[]);
    assert!(!subgraph_is_anchorable(&empty, &graph, &layout_ids));
}

#[test]
fn subgraph_anchor_ids_lists_each_anchor_once() {
    let mut graph = Graph::new();
    graph.subgraphs.push(sub(Some("G"), "Group", &["A"]));
    graph.subgraphs.push(sub(Some("x"), "G", &["B"]));
    graph.subgraphs.push(sub(Some("H"), "Other", &["A"]));
    let layout_ids = ids(&["A", "B", "G"]);
    assert_eq!(subgraph_anchor_ids(&graph, &layout_ids), ids(&["G"]));
}
